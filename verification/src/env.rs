//! The configuration as environment variables spell it.

use vstd::prelude::*;
use vstd::string::*;

use crate::config::{
    default_bind_address, default_doh_port, default_ttl, doh_port_default, entries_view, strings,
    config_error, upstream_error, upstream_of, BlockMode, BlockingConfig, BlockingView,
    BlocklistsConfig, CacheConfig, Cause, CauseView, Config, ConfigError, ConfigView, ErrorView, ListView, Profile, ServerConfig, ServerView,
    StaticEntry, TlsSources, UpstreamStrategy, UpstreamsConfig, UpstreamsView, Variable,
    WhitelistConfig, DEFAULT_CACHE_BYTES, DEFAULT_LIST_REFRESH_SECS,
};
use crate::ip::{ip, ipv4, parse_ip, parse_ipv4, IpAddr, IpView};
use crate::text::{
    equals, find_first, find_number_error, first_index, from_chars, head, number_error,
    parse_unsigned, same_chars, split, split_at_char, tail, to_chars, trim, trimmed, unsigned,
    NumberError,
};

verus! {

/// Below this the cache's pool can't hold a usable number of responses.
pub const MIN_CACHE_BYTES: u64 = 1_048_576;

/// The port for DoT where TLS is terminated in front of the resolver.
pub const DEFAULT_ENV_DOT_PORT: u16 = 8853;

/// A variable's value.
pub enum EnvValue {
    Text(String),
    /// The value is not valid Unicode. The text is what can be shown of it.
    NotUnicode(String),
}

/// A variable that is set.
pub struct EnvVar {
    pub name: String,
    pub value: EnvValue,
}

/// A variable's value, if it is set and valid Unicode.
pub open spec fn lookup(vars: Seq<EnvVar>, v: Variable) -> Result<Option<Seq<char>>, ErrorView>
    decreases vars.len(),
{
    if vars.len() == 0 {
        Ok(None)
    } else if vars[0].name@ == v.spelled() {
        match vars[0].value {
            EnvValue::Text(s) => Ok(Some(s@)),
            EnvValue::NotUnicode(s) => Err(ErrorView::NotUnicode(v, s@)),
        }
    } else {
        lookup(vars.drop_first(), v)
    }
}

/// The largest number that a variable may hold.
pub open spec fn number_max(v: Variable) -> u64 {
    match v {
        Variable::Port | Variable::DohPort | Variable::DotPort => u16::MAX as u64,
        Variable::DefaultTtl => u32::MAX as u64,
        _ => u64::MAX,
    }
}

/// What is wrong with a value that a variable cannot have.
pub open spec fn cause_of(v: Variable, s: Seq<char>) -> CauseView {
    match v {
        Variable::BindAddress => CauseView::NotIp,
        Variable::SinkholeIp => CauseView::NotIpv4,
        Variable::CacheEnabled => CauseView::NotBool,
        Variable::UpstreamStrategy => CauseView::Strategy(s),
        Variable::BlockMode => CauseView::Mode(s),
        _ => match number_error(s, number_max(v) as nat) {
            Some(e) => CauseView::Number(e),
            None => CauseView::Number(NumberError::InvalidDigit),
        },
    }
}

/// The value that `parse` reads out of a variable, if that is set.
pub open spec fn read<T>(
    vars: Seq<EnvVar>,
    v: Variable,
    parse: spec_fn(Seq<char>) -> Option<T>,
) -> Result<Option<T>, ErrorView> {
    match lookup(vars, v) {
        Err(e) => Err(e),
        Ok(None) => Ok(None),
        Ok(Some(s)) => match parse(s) {
            Some(t) => Ok(Some(t)),
            None => Err(ErrorView::Invalid(v, cause_of(v, s))),
        },
    }
}

pub open spec fn read_number(vars: Seq<EnvVar>, v: Variable, max: nat) -> Result<
    Option<nat>,
    ErrorView,
> {
    read(vars, v, |s: Seq<char>| unsigned(s, max))
}

/// The trimmed pieces that are not empty.
pub open spec fn entries_of_list(pieces: Seq<Seq<char>>) -> Seq<Seq<char>>
    decreases pieces.len(),
{
    if pieces.len() == 0 {
        seq![]
    } else {
        let init = entries_of_list(pieces.drop_last());
        let last = trim(pieces.last());
        if last.len() == 0 {
            init
        } else {
            init.push(last)
        }
    }
}

/// The entries of a comma-separated list.
pub open spec fn comma_list(s: Seq<char>) -> Seq<Seq<char>> {
    entries_of_list(split(s, ','))
}

pub open spec fn read_list(vars: Seq<EnvVar>, v: Variable) -> Result<
    Option<Seq<Seq<char>>>,
    ErrorView,
> {
    read(vars, v, |s: Seq<char>| Some(comma_list(s)))
}

pub open spec fn bool_of(s: Seq<char>) -> Option<bool> {
    if s == "true"@ {
        Some(true)
    } else if s == "false"@ {
        Some(false)
    } else {
        None
    }
}

pub open spec fn strategy_of(s: Seq<char>) -> Option<UpstreamStrategy> {
    if s == "sequential"@ {
        Some(UpstreamStrategy::Sequential)
    } else if s == "hedged"@ {
        Some(UpstreamStrategy::Hedged)
    } else if s == "race"@ {
        Some(UpstreamStrategy::Race)
    } else {
        None
    }
}

pub open spec fn mode_of(s: Seq<char>) -> Option<BlockMode> {
    if s == "nxdomain"@ {
        Some(BlockMode::Nxdomain)
    } else if s == "sinkhole"@ {
        Some(BlockMode::Sinkhole)
    } else {
        None
    }
}

/// A static host `name=ip`.
pub open spec fn static_host_of(entry: Seq<char>) -> Result<(Seq<char>, Seq<u8>), ErrorView> {
    let i = first_index(entry, '=');
    if i == entry.len() {
        Err(ErrorView::StaticHostForm(entry))
    } else {
        match ipv4(trim(entry.skip(i + 1))) {
            None => Err(ErrorView::StaticHostIp(entry)),
            Some(octets) => Ok((trim(entry.take(i)), octets)),
        }
    }
}

/// The position of `name` among the hosts, or their number if it is not there.
pub open spec fn host_index(hosts: Seq<(Seq<char>, Seq<u8>)>, name: Seq<char>) -> int
    decreases hosts.len(),
{
    if hosts.len() == 0 {
        0
    } else if hosts[0].0 == name {
        0
    } else {
        1 + host_index(hosts.drop_first(), name)
    }
}

/// The hosts with one more, which replaces one of the same name.
pub open spec fn with_host(hosts: Seq<(Seq<char>, Seq<u8>)>, host: (Seq<char>, Seq<u8>)) -> Seq<
    (Seq<char>, Seq<u8>),
> {
    let i = host_index(hosts, host.0);
    if i < hosts.len() {
        hosts.update(i, host)
    } else {
        hosts.push(host)
    }
}

/// The static hosts of a list, or the error of the first entry that has one.
pub open spec fn static_hosts_in(entries: Seq<Seq<char>>) -> Result<
    Seq<(Seq<char>, Seq<u8>)>,
    ErrorView,
>
    decreases entries.len(),
{
    if entries.len() == 0 {
        Ok(seq![])
    } else {
        match static_hosts_in(entries.drop_last()) {
            Err(e) => Err(e),
            Ok(hosts) => match static_host_of(entries.last()) {
                Err(e) => Err(e),
                Ok(host) => Ok(with_host(hosts, host)),
            },
        }
    }
}

pub open spec fn read_static_hosts(vars: Seq<EnvVar>) -> Result<
    Seq<(Seq<char>, Seq<u8>)>,
    ErrorView,
> {
    match read_list(vars, Variable::StaticHosts) {
        Err(e) => Err(e),
        Ok(None) => Ok(seq![]),
        Ok(Some(entries)) => static_hosts_in(entries),
    }
}

/// The port for DoH. `PORT`, which platforms set, wins.
pub open spec fn read_doh_port(vars: Seq<EnvVar>) -> Result<Option<nat>, ErrorView> {
    match read_number(vars, Variable::Port, 65535) {
        Ok(None) => read_number(vars, Variable::DohPort, 65535),
        other => other,
    }
}

/// The port for DoT, where there is a listener for it.
pub open spec fn read_dot_port(vars: Seq<EnvVar>, profile: Profile) -> Result<
    Option<nat>,
    ErrorView,
> {
    if profile.dot {
        read_number(vars, Variable::DotPort, 65535)
    } else {
        Ok(None)
    }
}

/// A path to TLS material, which must be set unless TLS is terminated elsewhere or
/// the material itself is in the environment.
pub open spec fn read_tls_path(
    vars: Seq<EnvVar>,
    v: Variable,
    profile: Profile,
    tls: TlsSources,
) -> Result<Option<Seq<char>>, ErrorView> {
    if profile.certless {
        Ok(None)
    } else {
        match lookup(vars, v) {
            Ok(None) => if tls.cert_in_env || tls.key_in_env {
                Ok(None)
            } else {
                Err(ErrorView::Missing(v))
            },
            other => other,
        }
    }
}

pub open spec fn read_enabled(vars: Seq<EnvVar>) -> Result<Option<bool>, ErrorView> {
    read(vars, Variable::CacheEnabled, |s: Seq<char>| bool_of(s))
}

/// The cache's byte budget, which must not be too small while there is a cache.
pub open spec fn read_cache_bytes(vars: Seq<EnvVar>) -> Result<Option<nat>, ErrorView> {
    match read_number(vars, Variable::CacheMaxSizeBytes, u64::MAX as nat) {
        Ok(Some(bytes)) => if or_else(read_enabled(vars), true) && bytes < MIN_CACHE_BYTES {
            Err(ErrorView::CacheTooSmall)
        } else {
            Ok(Some(bytes))
        },
        other => other,
    }
}

/// A quarter of the memory limit, but from 1 to 64 MiB; 64 MiB without a limit.
pub open spec fn default_cache_bytes(memory_limit: Option<u64>) -> u64 {
    match memory_limit {
        None => DEFAULT_CACHE_BYTES,
        Some(limit) => if limit / 4 < MIN_CACHE_BYTES {
            MIN_CACHE_BYTES
        } else if limit / 4 > DEFAULT_CACHE_BYTES {
            DEFAULT_CACHE_BYTES
        } else {
            limit / 4
        },
    }
}

pub open spec fn error_in<T>(r: Result<T, ErrorView>) -> Option<ErrorView> {
    match r {
        Ok(_) => None,
        Err(e) => Some(e),
    }
}

/// What was read, or `default` if the variable is not set.
pub open spec fn or_else<T>(r: Result<Option<T>, ErrorView>, default: T) -> T {
    match r {
        Ok(Some(t)) => t,
        _ => default,
    }
}

pub open spec fn first_error(errors: Seq<Option<ErrorView>>) -> Option<ErrorView>
    decreases errors.len(),
{
    if errors.len() == 0 {
        None
    } else if errors[0] is Some {
        errors[0]
    } else {
        first_error(errors.drop_first())
    }
}

/// The errors of the server's variables.
pub open spec fn server_errors(vars: Seq<EnvVar>, profile: Profile, tls: TlsSources) -> Seq<
    Option<ErrorView>,
> {
    seq![
        error_in(read(vars, Variable::BindAddress, |s: Seq<char>| ip(s))),
        error_in(read_doh_port(vars)),
        error_in(read_dot_port(vars, profile)),
        error_in(read_tls_path(vars, Variable::TlsCert, profile, tls)),
        error_in(read_tls_path(vars, Variable::TlsKey, profile, tls)),
        error_in(read_number(vars, Variable::DefaultTtl, u32::MAX as nat)),
    ]
}

pub open spec fn server_in(vars: Seq<EnvVar>, profile: Profile, tls: TlsSources) -> ServerView {
    ServerView {
        bind_address: or_else(
            read(vars, Variable::BindAddress, |s: Seq<char>| ip(s)),
            IpView::V4(seq![0u8, 0u8, 0u8, 0u8]),
        ),
        dot_port: or_else(read_dot_port(vars, profile), DEFAULT_ENV_DOT_PORT as nat) as u16,
        doh_port: or_else(read_doh_port(vars), doh_port_default(profile.certless) as nat) as u16,
        tls_cert: read_tls_path(vars, Variable::TlsCert, profile, tls)->Ok_0,
        tls_key: read_tls_path(vars, Variable::TlsKey, profile, tls)->Ok_0,
        default_ttl: or_else(
            read_number(vars, Variable::DefaultTtl, u32::MAX as nat),
            300,
        ) as u32,
    }
}

/// The errors of the upstreams' variables.
pub open spec fn upstream_errors(vars: Seq<EnvVar>) -> Seq<Option<ErrorView>> {
    seq![
        error_in(read_list(vars, Variable::UpstreamUrls)),
        error_in(read(vars, Variable::UpstreamStrategy, |s: Seq<char>| strategy_of(s))),
    ]
}

pub open spec fn upstreams_in(vars: Seq<EnvVar>) -> UpstreamsView {
    UpstreamsView {
        strategy: or_else(
            read(vars, Variable::UpstreamStrategy, |s: Seq<char>| strategy_of(s)),
            UpstreamStrategy::Sequential,
        ),
        urls: or_else(
            read_list(vars, Variable::UpstreamUrls),
            seq!["https://cloudflare-dns.com/dns-query"@],
        ),
    }
}

/// The variables of a list of domains.
#[derive(Clone, Copy)]
pub struct ListVariables {
    pub urls: Variable,
    pub domains: Variable,
    pub refresh_secs: Variable,
}

pub open spec fn blocklist_variables() -> ListVariables {
    ListVariables {
        urls: Variable::BlocklistUrls,
        domains: Variable::BlocklistDomains,
        refresh_secs: Variable::BlocklistRefreshSecs,
    }
}

pub open spec fn whitelist_variables() -> ListVariables {
    ListVariables {
        urls: Variable::WhitelistUrls,
        domains: Variable::WhitelistDomains,
        refresh_secs: Variable::WhitelistRefreshSecs,
    }
}

/// The errors of a list's variables.
pub open spec fn list_errors(vars: Seq<EnvVar>, of: ListVariables) -> Seq<Option<ErrorView>> {
    seq![
        error_in(read_list(vars, of.urls)),
        error_in(read_list(vars, of.domains)),
        error_in(read_number(vars, of.refresh_secs, u64::MAX as nat)),
    ]
}

pub open spec fn list_in(vars: Seq<EnvVar>, of: ListVariables) -> ListView {
    ListView {
        urls: or_else(read_list(vars, of.urls), seq![]),
        domains: or_else(read_list(vars, of.domains), seq![]),
        refresh_interval_secs: or_else(
            read_number(vars, of.refresh_secs, u64::MAX as nat),
            DEFAULT_LIST_REFRESH_SECS as nat,
        ) as u64,
    }
}

/// The errors of the variables that say how to block.
pub open spec fn blocking_errors(vars: Seq<EnvVar>) -> Seq<Option<ErrorView>> {
    seq![
        error_in(read(vars, Variable::BlockMode, |s: Seq<char>| mode_of(s))),
        error_in(read(vars, Variable::SinkholeIp, |s: Seq<char>| ipv4(s))),
    ]
}

pub open spec fn blocking_in(vars: Seq<EnvVar>) -> BlockingView {
    BlockingView {
        mode: or_else(
            read(vars, Variable::BlockMode, |s: Seq<char>| mode_of(s)),
            BlockMode::Nxdomain,
        ),
        sinkhole_ip: or_else(
            read(vars, Variable::SinkholeIp, |s: Seq<char>| ipv4(s)),
            seq![0u8, 0u8, 0u8, 0u8],
        ),
    }
}

/// The errors of the cache's variables.
pub open spec fn cache_errors(vars: Seq<EnvVar>) -> Seq<Option<ErrorView>> {
    seq![error_in(read_enabled(vars)), error_in(read_cache_bytes(vars))]
}

pub open spec fn cache_in(vars: Seq<EnvVar>, memory_limit: Option<u64>) -> CacheConfig {
    CacheConfig {
        enabled: or_else(read_enabled(vars), true),
        max_size_bytes: or_else(
            read_cache_bytes(vars),
            default_cache_bytes(memory_limit) as nat,
        ) as u64,
    }
}

/// The first errors of the parts, in the order in which these are read.
pub open spec fn read_errors(vars: Seq<EnvVar>, profile: Profile, tls: TlsSources) -> Seq<
    Option<ErrorView>,
> {
    seq![
        first_error(server_errors(vars, profile, tls)),
        first_error(upstream_errors(vars)),
        first_error(list_errors(vars, blocklist_variables())),
        first_error(list_errors(vars, whitelist_variables())),
        first_error(blocking_errors(vars)),
        error_in(read_static_hosts(vars)),
        first_error(cache_errors(vars)),
    ]
}

/// What the variables say, with defaults for those that are not set.
pub open spec fn config_in(
    vars: Seq<EnvVar>,
    memory_limit: Option<u64>,
    profile: Profile,
    tls: TlsSources,
) -> ConfigView {
    ConfigView {
        server: server_in(vars, profile, tls),
        blocking: blocking_in(vars),
        blocklists: list_in(vars, blocklist_variables()),
        whitelist: list_in(vars, whitelist_variables()),
        static_hosts: read_static_hosts(vars)->Ok_0,
        upstream: upstreams_in(vars),
        cache: cache_in(vars, memory_limit),
    }
}

/// The configuration that the variables spell, or the first thing that is wrong
/// with it: a variable that cannot be read, or what `config_error` finds.
pub open spec fn env_config(
    vars: Seq<EnvVar>,
    memory_limit: Option<u64>,
    profile: Profile,
    tls: TlsSources,
) -> Result<ConfigView, ErrorView> {
    match first_error(read_errors(vars, profile, tls)) {
        Some(e) => Err(e),
        None => {
            let config = config_in(vars, memory_limit, profile, tls);
            match config_error(config, profile, tls) {
                Some(e) => Err(e),
                None => Ok(config),
            }
        },
    }
}

proof fn lemma_first_error(errors: Seq<Option<ErrorView>>, i: int)
    requires
        0 <= i <= errors.len(),
        forall|j: int| 0 <= j < i ==> (#[trigger] errors[j]) is None,
        i < errors.len() ==> errors[i] is Some,
    ensures
        first_error(errors) == (if i < errors.len() {
            errors[i]
        } else {
            None
        }),
    decreases errors.len(),
{
    if i > 0 {
        assert(errors[0] is None);
        assert forall|j: int| 0 <= j < i - 1 implies (#[trigger] errors.drop_first()[j]) is None by {
            assert(errors[j + 1] is None);
        }
        lemma_first_error(errors.drop_first(), i - 1);
    }
}

/// A variable's value.
fn value(vars: &Vec<EnvVar>, v: Variable) -> (r: Result<Option<Vec<char>>, ConfigError>)
    ensures
        match r {
            Ok(Some(s)) => lookup(vars@, v) == Ok::<Option<Seq<char>>, ErrorView>(Some(s@)),
            Ok(None) => lookup(vars@, v) == Ok::<Option<Seq<char>>, ErrorView>(None),
            Err(e) => lookup(vars@, v) == Err::<Option<Seq<char>>, ErrorView>(e@),
        },
{
    let wanted: Vec<char> = to_chars(v.name());
    let n: usize = vars.len();
    let mut i: usize = 0;
    assert(vars@.skip(0) =~= vars@);
    while i < n
        invariant
            i <= n,
            n == vars@.len(),
            wanted@ == v.spelled(),
            lookup(vars@, v) == lookup(vars@.skip(i as int), v),
        decreases n - i,
    {
        let ghost rest = vars@.skip(i as int);
        assert(rest.drop_first() =~= vars@.skip(i + 1));
        assert(rest[0] == vars@[i as int]);
        let name: Vec<char> = to_chars(vars[i].name.as_str());
        if same_chars(name.as_slice(), wanted.as_slice()) {
            return match &vars[i].value {
                EnvValue::Text(s) => Ok(Some(to_chars(s.as_str()))),
                EnvValue::NotUnicode(s) => Err(ConfigError::NotUnicode(v, s.clone())),
            };
        }
        i = i + 1;
    }
    Ok(None)
}

/// A variable holds a value that it cannot have.
fn invalid(v: Variable, s: &[char]) -> (r: ConfigError)
    ensures
        r@ == ErrorView::Invalid(v, cause_of(v, s@)),
{
    let max: u64 = match v {
        Variable::Port | Variable::DohPort | Variable::DotPort => u16::MAX as u64,
        Variable::DefaultTtl => u32::MAX as u64,
        _ => u64::MAX,
    };
    let cause: Cause = match v {
        Variable::BindAddress => Cause::NotIp,
        Variable::SinkholeIp => Cause::NotIpv4,
        Variable::CacheEnabled => Cause::NotBool,
        Variable::UpstreamStrategy => Cause::Strategy(from_chars(s)),
        Variable::BlockMode => Cause::Mode(from_chars(s)),
        _ => match find_number_error(s, max) {
            Some(e) => Cause::Number(e),
            None => Cause::Number(NumberError::InvalidDigit),
        },
    };
    ConfigError::Invalid(v, cause)
}

fn number(vars: &Vec<EnvVar>, v: Variable, max: u64) -> (r: Result<Option<u64>, ConfigError>)
    ensures
        match r {
            Ok(Some(n)) => n <= max && read_number(vars@, v, max as nat) == Ok::<Option<nat>, ErrorView>(
                Some(n as nat),
            ),
            Ok(None) => read_number(vars@, v, max as nat) == Ok::<Option<nat>, ErrorView>(None),
            Err(e) => read_number(vars@, v, max as nat) == Err::<Option<nat>, ErrorView>(e@),
        },
{
    match value(vars, v) {
        Err(e) => Err(e),
        Ok(None) => Ok(None),
        Ok(Some(s)) => match parse_unsigned(s.as_slice(), max) {
            Some(n) => Ok(Some(n)),
            None => Err(invalid(v, s.as_slice())),
        },
    }
}

/// The entries of a comma-separated list.
pub fn split_list(s: &[char]) -> (r: Vec<String>)
    ensures
        strings(r@) == comma_list(s@),
{
    let pieces: Vec<&[char]> = split_at_char(s, ',');
    let ghost ps = split(s@, ',');
    assert(forall|i: int| 0 <= i < pieces@.len() ==> (#[trigger] pieces@[i])@ == ps[i]);
    let n: usize = pieces.len();
    let mut r: Vec<String> = Vec::new();
    let mut i: usize = 0;
    assert(strings(r@) =~= entries_of_list(ps.take(0)));
    while i < n
        invariant
            i <= n,
            n == pieces@.len(),
            n == ps.len(),
            forall|j: int| 0 <= j < n ==> (#[trigger] pieces@[j])@ == ps[j],
            strings(r@) == entries_of_list(ps.take(i as int)),
        decreases n - i,
    {
        let ghost before = r@;
        assert(ps.take(i + 1).drop_last() =~= ps.take(i as int));
        let entry: &[char] = trimmed(pieces[i]);
        if entry.len() > 0 {
            r.push(from_chars(entry));
            assert(strings(r@) =~= strings(before).push(entry@));
        }
        i = i + 1;
    }
    assert(ps.take(n as int) =~= ps);
    r
}

fn list(vars: &Vec<EnvVar>, v: Variable) -> (r: Result<Option<Vec<String>>, ConfigError>)
    ensures
        match r {
            Ok(Some(l)) => read_list(vars@, v) == Ok::<Option<Seq<Seq<char>>>, ErrorView>(
                Some(strings(l@)),
            ),
            Ok(None) => read_list(vars@, v) == Ok::<Option<Seq<Seq<char>>>, ErrorView>(None),
            Err(e) => read_list(vars@, v) == Err::<Option<Seq<Seq<char>>>, ErrorView>(e@),
        },
{
    match value(vars, v) {
        Err(e) => Err(e),
        Ok(None) => Ok(None),
        Ok(Some(s)) => Ok(Some(split_list(s.as_slice()))),
    }
}

/// A list that is `otherwise` if the variable is not set.
fn list_or(vars: &Vec<EnvVar>, v: Variable, otherwise: Vec<String>) -> (r: Result<
    Vec<String>,
    ConfigError,
>)
    ensures
        match r {
            Ok(l) => read_list(vars@, v) is Ok && strings(l@) == or_else(
                read_list(vars@, v),
                strings(otherwise@),
            ),
            Err(e) => error_in(read_list(vars@, v)) == Some(e@),
        },
{
    match list(vars, v) {
        Err(e) => Err(e),
        Ok(None) => Ok(otherwise),
        Ok(Some(l)) => Ok(l),
    }
}

/// A number that is `otherwise` if the variable is not set.
fn number_or(vars: &Vec<EnvVar>, v: Variable, max: u64, otherwise: u64) -> (r: Result<
    u64,
    ConfigError,
>)
    requires
        otherwise <= max,
    ensures
        match r {
            Ok(n) => read_number(vars@, v, max as nat) is Ok && n as nat == or_else(
                read_number(vars@, v, max as nat),
                otherwise as nat,
            ) && n <= max,
            Err(e) => error_in(read_number(vars@, v, max as nat)) == Some(e@),
        },
{
    match number(vars, v, max) {
        Err(e) => Err(e),
        Ok(None) => Ok(otherwise),
        Ok(Some(n)) => Ok(n),
    }
}

fn bind_address(vars: &Vec<EnvVar>) -> (r: Result<IpAddr, ConfigError>)
    ensures
        ({
            let reading = read(vars@, Variable::BindAddress, |s: Seq<char>| ip(s));
            match r {
                Ok(a) => reading is Ok && a@ == or_else(
                    reading,
                    IpView::V4(seq![0u8, 0u8, 0u8, 0u8]),
                ),
                Err(e) => error_in(reading) == Some(e@),
            }
        }),
{
    match value(vars, Variable::BindAddress) {
        Err(e) => Err(e),
        Ok(None) => Ok(default_bind_address()),
        Ok(Some(s)) => match parse_ip(s.as_slice()) {
            Some(a) => Ok(a),
            None => Err(invalid(Variable::BindAddress, s.as_slice())),
        },
    }
}

fn doh_port(vars: &Vec<EnvVar>, certless: bool) -> (r: Result<u16, ConfigError>)
    ensures
        match r {
            Ok(p) => read_doh_port(vars@) is Ok && p as nat == or_else(
                read_doh_port(vars@),
                doh_port_default(certless) as nat,
            ),
            Err(e) => error_in(read_doh_port(vars@)) == Some(e@),
        },
{
    match number(vars, Variable::Port, 65535) {
        Err(e) => Err(e),
        Ok(Some(p)) => Ok(p as u16),
        Ok(None) => match number(vars, Variable::DohPort, 65535) {
            Err(e) => Err(e),
            Ok(Some(p)) => Ok(p as u16),
            Ok(None) => Ok(default_doh_port(certless)),
        },
    }
}

fn dot_port(vars: &Vec<EnvVar>, profile: Profile) -> (r: Result<u16, ConfigError>)
    ensures
        match r {
            Ok(p) => read_dot_port(vars@, profile) is Ok && p as nat == or_else(
                read_dot_port(vars@, profile),
                DEFAULT_ENV_DOT_PORT as nat,
            ),
            Err(e) => error_in(read_dot_port(vars@, profile)) == Some(e@),
        },
{
    if !profile.dot {
        return Ok(DEFAULT_ENV_DOT_PORT);
    }
    match number_or(vars, Variable::DotPort, 65535, DEFAULT_ENV_DOT_PORT as u64) {
        Err(e) => Err(e),
        Ok(p) => Ok(p as u16),
    }
}

fn tls_path(vars: &Vec<EnvVar>, v: Variable, profile: Profile, tls: TlsSources) -> (r: Result<
    Option<String>,
    ConfigError,
>)
    ensures
        match r {
            Ok(Some(p)) => read_tls_path(vars@, v, profile, tls) == Ok::<
                Option<Seq<char>>,
                ErrorView,
            >(Some(p@)),
            Ok(None) => read_tls_path(vars@, v, profile, tls) == Ok::<
                Option<Seq<char>>,
                ErrorView,
            >(None),
            Err(e) => error_in(read_tls_path(vars@, v, profile, tls)) == Some(e@),
        },
{
    if profile.certless {
        return Ok(None);
    }
    match value(vars, v) {
        Err(e) => Err(e),
        Ok(Some(s)) => Ok(Some(from_chars(s.as_slice()))),
        Ok(None) => if tls.cert_in_env || tls.key_in_env {
            Ok(None)
        } else {
            Err(ConfigError::Missing(v))
        },
    }
}

fn strategy(vars: &Vec<EnvVar>) -> (r: Result<UpstreamStrategy, ConfigError>)
    ensures
        ({
            let reading = read(vars@, Variable::UpstreamStrategy, |s: Seq<char>| strategy_of(s));
            match r {
                Ok(s) => reading is Ok && s == or_else(reading, UpstreamStrategy::Sequential),
                Err(e) => error_in(reading) == Some(e@),
            }
        }),
{
    match value(vars, Variable::UpstreamStrategy) {
        Err(e) => Err(e),
        Ok(None) => Ok(UpstreamStrategy::Sequential),
        Ok(Some(s)) => if equals(s.as_slice(), "sequential") {
            Ok(UpstreamStrategy::Sequential)
        } else if equals(s.as_slice(), "hedged") {
            Ok(UpstreamStrategy::Hedged)
        } else if equals(s.as_slice(), "race") {
            Ok(UpstreamStrategy::Race)
        } else {
            Err(invalid(Variable::UpstreamStrategy, s.as_slice()))
        },
    }
}

fn block_mode(vars: &Vec<EnvVar>) -> (r: Result<BlockMode, ConfigError>)
    ensures
        ({
            let reading = read(vars@, Variable::BlockMode, |s: Seq<char>| mode_of(s));
            match r {
                Ok(m) => reading is Ok && m == or_else(reading, BlockMode::Nxdomain),
                Err(e) => error_in(reading) == Some(e@),
            }
        }),
{
    match value(vars, Variable::BlockMode) {
        Err(e) => Err(e),
        Ok(None) => Ok(BlockMode::Nxdomain),
        Ok(Some(s)) => if equals(s.as_slice(), "nxdomain") {
            Ok(BlockMode::Nxdomain)
        } else if equals(s.as_slice(), "sinkhole") {
            Ok(BlockMode::Sinkhole)
        } else {
            Err(invalid(Variable::BlockMode, s.as_slice()))
        },
    }
}

fn sinkhole_ip(vars: &Vec<EnvVar>) -> (r: Result<[u8; 4], ConfigError>)
    ensures
        ({
            let reading = read(vars@, Variable::SinkholeIp, |s: Seq<char>| ipv4(s));
            match r {
                Ok(a) => reading is Ok && a@ == or_else(reading, seq![0u8, 0u8, 0u8, 0u8]),
                Err(e) => error_in(reading) == Some(e@),
            }
        }),
{
    match value(vars, Variable::SinkholeIp) {
        Err(e) => Err(e),
        Ok(None) => {
            let a: [u8; 4] = [0u8, 0u8, 0u8, 0u8];
            assert(a@ =~= seq![0u8, 0u8, 0u8, 0u8]);
            Ok(a)
        },
        Ok(Some(s)) => match parse_ipv4(s.as_slice()) {
            Some(a) => Ok(a),
            None => Err(invalid(Variable::SinkholeIp, s.as_slice())),
        },
    }
}

fn cache_enabled(vars: &Vec<EnvVar>) -> (r: Result<bool, ConfigError>)
    ensures
        match r {
            Ok(b) => read_enabled(vars@) is Ok && b == or_else(read_enabled(vars@), true),
            Err(e) => error_in(read_enabled(vars@)) == Some(e@),
        },
{
    match value(vars, Variable::CacheEnabled) {
        Err(e) => Err(e),
        Ok(None) => Ok(true),
        Ok(Some(s)) => if equals(s.as_slice(), "true") {
            Ok(true)
        } else if equals(s.as_slice(), "false") {
            Ok(false)
        } else {
            Err(invalid(Variable::CacheEnabled, s.as_slice()))
        },
    }
}

/// The cache's byte budget unless it is configured: a share of the memory limit.
pub fn default_max_size_bytes(memory_limit: Option<u64>) -> (r: u64)
    ensures
        r == default_cache_bytes(memory_limit),
{
    match memory_limit {
        None => DEFAULT_CACHE_BYTES,
        Some(limit) => if limit / 4 < MIN_CACHE_BYTES {
            MIN_CACHE_BYTES
        } else if limit / 4 > DEFAULT_CACHE_BYTES {
            DEFAULT_CACHE_BYTES
        } else {
            limit / 4
        },
    }
}

fn cache_bytes(vars: &Vec<EnvVar>, enabled: bool, memory_limit: Option<u64>) -> (r: Result<
    u64,
    ConfigError,
>)
    requires
        enabled == or_else(read_enabled(vars@), true),
    ensures
        match r {
            Ok(n) => read_cache_bytes(vars@) is Ok && n as nat == or_else(
                read_cache_bytes(vars@),
                default_cache_bytes(memory_limit) as nat,
            ),
            Err(e) => error_in(read_cache_bytes(vars@)) == Some(e@),
        },
{
    match number(vars, Variable::CacheMaxSizeBytes, u64::MAX) {
        Err(e) => Err(e),
        Ok(None) => Ok(default_max_size_bytes(memory_limit)),
        Ok(Some(bytes)) => if enabled && bytes < MIN_CACHE_BYTES {
            Err(ConfigError::CacheTooSmall)
        } else {
            Ok(bytes)
        },
    }
}

/// Adds a static host, or replaces the one of the same name.
fn put_entry(hosts: &mut Vec<StaticEntry>, name: String, ip: [u8; 4])
    ensures
        entries_view(final(hosts)@) == with_host(entries_view(old(hosts)@), (name@, ip@)),
{
    let ghost before = entries_view(hosts@);
    let wanted: Vec<char> = to_chars(name.as_str());
    let n: usize = hosts.len();
    let mut i: usize = 0;
    assert(before.skip(0) =~= before);
    while i < n
        invariant
            i <= n,
            n == hosts@.len(),
            *hosts == *old(hosts),
            before == entries_view(hosts@),
            wanted@ == name@,
            host_index(before, name@) == i + host_index(before.skip(i as int), name@),
        decreases n - i,
    {
        let ghost rest = before.skip(i as int);
        assert(rest.drop_first() =~= before.skip(i + 1));
        assert(rest[0].0 == hosts@[i as int].name@);
        let other: Vec<char> = to_chars(hosts[i].name.as_str());
        if same_chars(other.as_slice(), wanted.as_slice()) {
            hosts.set(i, StaticEntry { name, ip });
            assert(entries_view(hosts@) =~= before.update(i as int, (name@, ip@)));
            return;
        }
        i = i + 1;
    }
    hosts.push(StaticEntry { name, ip });
    assert(entries_view(hosts@) =~= before.push((name@, ip@)));
}

proof fn lemma_static_hosts_take(entries: Seq<Seq<char>>, i: int)
    requires
        0 <= i <= entries.len(),
        static_hosts_in(entries.take(i)) is Err,
    ensures
        static_hosts_in(entries) == static_hosts_in(entries.take(i)),
    decreases entries.len(),
{
    if i < entries.len() {
        assert(entries.drop_last().take(i) =~= entries.take(i));
        lemma_static_hosts_take(entries.drop_last(), i);
    } else {
        assert(entries.take(i) =~= entries);
    }
}

/// Reads a list of static hosts.
pub fn parse_static_hosts(entries: &Vec<String>) -> (r: Result<Vec<StaticEntry>, ConfigError>)
    ensures
        match r {
            Ok(hosts) => static_hosts_in(strings(entries@)) == Ok::<
                Seq<(Seq<char>, Seq<u8>)>,
                ErrorView,
            >(entries_view(hosts@)),
            Err(e) => static_hosts_in(strings(entries@)) == Err::<
                Seq<(Seq<char>, Seq<u8>)>,
                ErrorView,
            >(e@),
        },
{
    let ghost es = strings(entries@);
    let n: usize = entries.len();
    let mut hosts: Vec<StaticEntry> = Vec::new();
    let mut i: usize = 0;
    assert(entries_view(hosts@) =~= seq![]);
    while i < n
        invariant
            i <= n,
            n == es.len(),
            n == entries@.len(),
            es == strings(entries@),
            static_hosts_in(es.take(i as int)) == Ok::<Seq<(Seq<char>, Seq<u8>)>, ErrorView>(
                entries_view(hosts@),
            ),
        decreases n - i,
    {
        assert(es.take(i + 1).drop_last() =~= es.take(i as int));
        assert(es.take(i + 1).last() == entries@[i as int]@);
        let chars: Vec<char> = to_chars(entries[i].as_str());
        let entry: &[char] = chars.as_slice();
        let at: usize = find_first(entry, '=');
        if at >= entry.len() {
            proof {
                lemma_static_hosts_take(es, i + 1);
            }
            return Err(ConfigError::StaticHostForm(entries[i].clone()));
        }
        match parse_ipv4(trimmed(tail(entry, at + 1))) {
            Some(ip) => put_entry(&mut hosts, from_chars(trimmed(head(entry, at))), ip),
            None => {
                proof {
                    lemma_static_hosts_take(es, i + 1);
                }
                return Err(ConfigError::StaticHostIp(entries[i].clone()));
            },
        }
        i = i + 1;
    }
    assert(es.take(n as int) =~= es);
    Ok(hosts)
}

fn static_hosts(vars: &Vec<EnvVar>) -> (r: Result<Vec<StaticEntry>, ConfigError>)
    ensures
        match r {
            Ok(hosts) => read_static_hosts(vars@) == Ok::<
                Seq<(Seq<char>, Seq<u8>)>,
                ErrorView,
            >(entries_view(hosts@)),
            Err(e) => error_in(read_static_hosts(vars@)) == Some(e@),
        },
{
    match list(vars, Variable::StaticHosts) {
        Err(e) => Err(e),
        Ok(None) => {
            let hosts: Vec<StaticEntry> = Vec::new();
            assert(entries_view(hosts@) =~= seq![]);
            Ok(hosts)
        },
        Ok(Some(entries)) => parse_static_hosts(&entries),
    }
}

fn default_upstreams() -> (r: Vec<String>)
    ensures
        strings(r@) == seq!["https://cloudflare-dns.com/dns-query"@],
{
    let mut r: Vec<String> = Vec::new();
    r.push("https://cloudflare-dns.com/dns-query".to_owned());
    assert(strings(r@) =~= seq!["https://cloudflare-dns.com/dns-query"@]);
    r
}

fn no_entries() -> (r: Vec<String>)
    ensures
        strings(r@) == Seq::<Seq<char>>::empty(),
{
    let r: Vec<String> = Vec::new();
    assert(strings(r@) =~= Seq::<Seq<char>>::empty());
    r
}

fn server(vars: &Vec<EnvVar>, profile: Profile, tls: TlsSources) -> (r: Result<
    ServerConfig,
    ConfigError,
>)
    ensures
        match r {
            Ok(s) => first_error(server_errors(vars@, profile, tls)) is None && s@ == server_in(
                vars@,
                profile,
                tls,
            ),
            Err(e) => first_error(server_errors(vars@, profile, tls)) == Some(e@),
        },
{
    let ghost errors = server_errors(vars@, profile, tls);
    let address: IpAddr = match bind_address(vars) {
        Ok(x) => x,
        Err(e) => {
            proof {
                lemma_first_error(errors, 0);
            }
            return Err(e);
        },
    };
    let doh: u16 = match doh_port(vars, profile.certless) {
        Ok(x) => x,
        Err(e) => {
            proof {
                lemma_first_error(errors, 1);
            }
            return Err(e);
        },
    };
    let dot: u16 = match dot_port(vars, profile) {
        Ok(x) => x,
        Err(e) => {
            proof {
                lemma_first_error(errors, 2);
            }
            return Err(e);
        },
    };
    let tls_cert: Option<String> = match tls_path(vars, Variable::TlsCert, profile, tls) {
        Ok(x) => x,
        Err(e) => {
            proof {
                lemma_first_error(errors, 3);
            }
            return Err(e);
        },
    };
    let tls_key: Option<String> = match tls_path(vars, Variable::TlsKey, profile, tls) {
        Ok(x) => x,
        Err(e) => {
            proof {
                lemma_first_error(errors, 4);
            }
            return Err(e);
        },
    };
    let ttl: u64 = match number_or(vars, Variable::DefaultTtl, u32::MAX as u64, default_ttl() as u64) {
        Ok(x) => x,
        Err(e) => {
            proof {
                lemma_first_error(errors, 5);
            }
            return Err(e);
        },
    };
    proof {
        lemma_first_error(errors, 6);
    }
    let r = ServerConfig {
        bind_address: address,
        dot_port: dot,
        doh_port: doh,
        tls_cert,
        tls_key,
        default_ttl: ttl as u32,
    };
    assert(r@ =~= server_in(vars@, profile, tls));
    Ok(r)
}

fn upstreams(vars: &Vec<EnvVar>) -> (r: Result<UpstreamsConfig, ConfigError>)
    ensures
        match r {
            Ok(u) => first_error(upstream_errors(vars@)) is None && u@ == upstreams_in(vars@),
            Err(e) => first_error(upstream_errors(vars@)) == Some(e@),
        },
{
    let ghost errors = upstream_errors(vars@);
    let urls: Vec<String> = match list_or(vars, Variable::UpstreamUrls, default_upstreams()) {
        Ok(x) => x,
        Err(e) => {
            proof {
                lemma_first_error(errors, 0);
            }
            return Err(e);
        },
    };
    let strategy: UpstreamStrategy = match strategy(vars) {
        Ok(x) => x,
        Err(e) => {
            proof {
                lemma_first_error(errors, 1);
            }
            return Err(e);
        },
    };
    proof {
        lemma_first_error(errors, 2);
    }
    Ok(UpstreamsConfig { strategy, urls })
}

/// The addresses and names of a list of domains, and how often it is fetched.
fn domain_list(vars: &Vec<EnvVar>, of: ListVariables) -> (r: Result<
    (Vec<String>, Vec<String>, u64),
    ConfigError,
>)
    ensures
        match r {
            Ok(l) => first_error(list_errors(vars@, of)) is None && list_in(vars@, of) == (
            ListView {
                urls: strings(l.0@),
                domains: strings(l.1@),
                refresh_interval_secs: l.2,
            }),
            Err(e) => first_error(list_errors(vars@, of)) == Some(e@),
        },
{
    let ghost errors = list_errors(vars@, of);
    let urls: Vec<String> = match list_or(vars, of.urls, no_entries()) {
        Ok(x) => x,
        Err(e) => {
            proof {
                lemma_first_error(errors, 0);
            }
            return Err(e);
        },
    };
    let domains: Vec<String> = match list_or(vars, of.domains, no_entries()) {
        Ok(x) => x,
        Err(e) => {
            proof {
                lemma_first_error(errors, 1);
            }
            return Err(e);
        },
    };
    let secs: u64 = match number_or(vars, of.refresh_secs, u64::MAX, DEFAULT_LIST_REFRESH_SECS) {
        Ok(x) => x,
        Err(e) => {
            proof {
                lemma_first_error(errors, 2);
            }
            return Err(e);
        },
    };
    proof {
        lemma_first_error(errors, 3);
    }
    Ok((urls, domains, secs))
}

fn blocking(vars: &Vec<EnvVar>) -> (r: Result<BlockingConfig, ConfigError>)
    ensures
        match r {
            Ok(b) => first_error(blocking_errors(vars@)) is None && b@ == blocking_in(vars@),
            Err(e) => first_error(blocking_errors(vars@)) == Some(e@),
        },
{
    let ghost errors = blocking_errors(vars@);
    let mode: BlockMode = match block_mode(vars) {
        Ok(x) => x,
        Err(e) => {
            proof {
                lemma_first_error(errors, 0);
            }
            return Err(e);
        },
    };
    let ip: [u8; 4] = match sinkhole_ip(vars) {
        Ok(x) => x,
        Err(e) => {
            proof {
                lemma_first_error(errors, 1);
            }
            return Err(e);
        },
    };
    proof {
        lemma_first_error(errors, 2);
    }
    Ok(BlockingConfig { mode, sinkhole_ip: ip })
}

fn cache(vars: &Vec<EnvVar>, memory_limit: Option<u64>) -> (r: Result<CacheConfig, ConfigError>)
    ensures
        match r {
            Ok(c) => first_error(cache_errors(vars@)) is None && c == cache_in(vars@, memory_limit),
            Err(e) => first_error(cache_errors(vars@)) == Some(e@),
        },
{
    let ghost errors = cache_errors(vars@);
    let enabled: bool = match cache_enabled(vars) {
        Ok(x) => x,
        Err(e) => {
            proof {
                lemma_first_error(errors, 0);
            }
            return Err(e);
        },
    };
    let bytes: u64 = match cache_bytes(vars, enabled, memory_limit) {
        Ok(x) => x,
        Err(e) => {
            proof {
                lemma_first_error(errors, 1);
            }
            return Err(e);
        },
    };
    proof {
        lemma_first_error(errors, 2);
    }
    Ok(CacheConfig { enabled, max_size_bytes: bytes })
}

impl Config {
    /// The configuration that the environment's variables spell. With no variables
    /// set at all it is that of a working resolver; a bad value is an error, never
    /// silently replaced by a default.
    pub fn from_env(
        vars: &Vec<EnvVar>,
        memory_limit: Option<u64>,
        profile: Profile,
        tls: TlsSources,
    ) -> (r: Result<Config, ConfigError>)
        ensures
            match r {
                Ok(c) => env_config(vars@, memory_limit, profile, tls) == Ok::<
                    ConfigView,
                    ErrorView,
                >(c@),
                Err(e) => env_config(vars@, memory_limit, profile, tls) == Err::<
                    ConfigView,
                    ErrorView,
                >(e@),
            },
    {
        let ghost errors = read_errors(vars@, profile, tls);
        let server: ServerConfig = match server(vars, profile, tls) {
            Ok(x) => x,
            Err(e) => {
                proof {
                    lemma_first_error(errors, 0);
                }
                return Err(e);
            },
        };
        let upstream: UpstreamsConfig = match upstreams(vars) {
            Ok(x) => x,
            Err(e) => {
                proof {
                    lemma_first_error(errors, 1);
                }
                return Err(e);
            },
        };
        let blocked: (Vec<String>, Vec<String>, u64) = match domain_list(
            vars,
            ListVariables {
                urls: Variable::BlocklistUrls,
                domains: Variable::BlocklistDomains,
                refresh_secs: Variable::BlocklistRefreshSecs,
            },
        ) {
            Ok(x) => x,
            Err(e) => {
                proof {
                    lemma_first_error(errors, 2);
                }
                return Err(e);
            },
        };
        let allowed: (Vec<String>, Vec<String>, u64) = match domain_list(
            vars,
            ListVariables {
                urls: Variable::WhitelistUrls,
                domains: Variable::WhitelistDomains,
                refresh_secs: Variable::WhitelistRefreshSecs,
            },
        ) {
            Ok(x) => x,
            Err(e) => {
                proof {
                    lemma_first_error(errors, 3);
                }
                return Err(e);
            },
        };
        let blocking: BlockingConfig = match blocking(vars) {
            Ok(x) => x,
            Err(e) => {
                proof {
                    lemma_first_error(errors, 4);
                }
                return Err(e);
            },
        };
        let hosts: Vec<StaticEntry> = match static_hosts(vars) {
            Ok(x) => x,
            Err(e) => {
                proof {
                    lemma_first_error(errors, 5);
                }
                return Err(e);
            },
        };
        let cache: CacheConfig = match cache(vars, memory_limit) {
            Ok(x) => x,
            Err(e) => {
                proof {
                    lemma_first_error(errors, 6);
                }
                return Err(e);
            },
        };
        proof {
            lemma_first_error(errors, 7);
        }
        let config = Config {
            server,
            blocking,
            blocklists: BlocklistsConfig {
                urls: blocked.0,
                domains: blocked.1,
                refresh_interval_secs: blocked.2,
            },
            whitelist: WhitelistConfig {
                urls: allowed.0,
                domains: allowed.1,
                refresh_interval_secs: allowed.2,
            },
            static_hosts: hosts,
            upstream,
            cache,
        };
        assert(config@ == config_in(vars@, memory_limit, profile, tls));
        match config.validate(profile, tls) {
            Ok(_) => Ok(config),
            Err(e) => Err(e),
        }
    }
}

/// With no variables set at all, and TLS terminated in front, there is a working
/// resolver: DoH on port 8053 (and DoT on 8853), one upstream, and a cache of 1 to 64
/// MiB.
pub proof fn law_empty_environment_is_valid(
    memory_limit: Option<u64>,
    profile: Profile,
    tls: TlsSources,
)
    requires
        profile.certless,
    ensures
        ({
            let none = Seq::<EnvVar>::empty();
            let config = config_in(none, memory_limit, profile, tls);
            &&& env_config(none, memory_limit, profile, tls) == Ok::<ConfigView, ErrorView>(config)
            &&& config.server.doh_port == 8053
            &&& config.server.dot_port == 8853
            &&& config.upstream.urls == seq!["https://cloudflare-dns.com/dns-query"@]
            &&& config.cache.enabled
            &&& MIN_CACHE_BYTES <= config.cache.max_size_bytes <= DEFAULT_CACHE_BYTES
        }),
{
    let none = Seq::<EnvVar>::empty();
    lemma_first_error(server_errors(none, profile, tls), 6);
    lemma_first_error(upstream_errors(none), 2);
    lemma_first_error(list_errors(none, blocklist_variables()), 3);
    lemma_first_error(list_errors(none, whitelist_variables()), 3);
    lemma_first_error(blocking_errors(none), 2);
    lemma_first_error(cache_errors(none), 2);
    lemma_first_error(read_errors(none, profile, tls), 7);
    let url = "https://cloudflare-dns.com/dns-query"@;
    reveal_strlit("https://cloudflare-dns.com/dns-query");
    reveal_strlit("https://");
    assert(url.take(8) =~= "https://"@);
    assert(upstream_of(url) is Ok);
    let urls = seq![url];
    assert(urls.drop_last() =~= seq![]);
    reveal_with_fuel(upstream_error, 2);
    assert(upstream_error(urls) is None);
}

/// No two static hosts have the same name, however often one was given.
pub proof fn law_static_hosts_have_distinct_names(entries: Seq<Seq<char>>, i: int, j: int)
    requires
        static_hosts_in(entries) is Ok,
        0 <= i < j < static_hosts_in(entries)->Ok_0.len(),
    ensures
        static_hosts_in(entries)->Ok_0[i].0 != static_hosts_in(entries)->Ok_0[j].0,
    decreases entries.len(),
{
    if entries.len() > 0 {
        let hosts = static_hosts_in(entries.drop_last())->Ok_0;
        let host = static_host_of(entries.last())->Ok_0;
        let at = host_index(hosts, host.0);
        lemma_host_found(hosts, host.0);
        if j < hosts.len() {
            law_static_hosts_have_distinct_names(entries.drop_last(), i, j);
        }
    }
}

pub(crate) proof fn lemma_host_found(hosts: Seq<(Seq<char>, Seq<u8>)>, name: Seq<char>)
    ensures
        0 <= host_index(hosts, name) <= hosts.len(),
        host_index(hosts, name) < hosts.len() ==> hosts[host_index(hosts, name)].0 == name,
        forall|i: int| 0 <= i < host_index(hosts, name) ==> (#[trigger] hosts[i]).0 != name,
    decreases hosts.len(),
{
    if hosts.len() > 0 && hosts[0].0 != name {
        let rest = hosts.drop_first();
        lemma_host_found(rest, name);
        assert forall|i: int| 0 <= i < host_index(hosts, name) implies (#[trigger] hosts[i]).0
            != name by {
            if i > 0 {
                assert(hosts[i] == rest[i - 1]);
            }
        }
    }
}

} // verus!
