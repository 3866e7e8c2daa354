//! What a configuration says once it was read, and which ones are refused.

use vstd::prelude::*;

use crate::config::{
    config_error, lemma_tls_entry, lemma_up_to_hash, static_hosts_of, upstream_error, upstream_of,
    BlockMode, CauseView, ConfigView, ErrorView, Profile, StaticEntry, TlsSources, UpstreamStrategy,
    UpstreamView, Variable,
};
use crate::env::{
    blocking_errors, blocklist_variables, bool_of, cache_errors, cause_of, comma_list,
    default_cache_bytes,
    entries_of_list, env_config, first_error, host_index, lemma_host_found, list_errors, lookup,
    mode_of, read_errors, server_errors, static_host_of, static_hosts_in, strategy_of,
    upstream_errors, whitelist_variables, with_host, EnvValue, EnvVar, ListVariables,
};
use crate::ip::{ip, ipv4, IpView};
use crate::text::{
    first_index, last_index, lemma_first_index, lemma_last_index, number_error, split, trim, unsigned,
};
use crate::text_laws::{law_split_pieces, lemma_first};
use crate::util::normalized;

verus! {

/// An address on the web is a DoH upstream, as it stands.
pub proof fn law_web_addresses_are_doh_upstreams(rest: Seq<char>)
    ensures
        ({
            let entry = seq!['h', 't', 't', 'p', 's', ':', '/', '/'] + rest;
            upstream_of(entry) == Ok::<UpstreamView, ErrorView>(UpstreamView::Doh { url: entry })
        }),
{
    reveal_strlit("https://");
    let entry = seq!['h', 't', 't', 'p', 's', ':', '/', '/'] + rest;
    assert(entry.take(8) =~= "https://"@);
}

/// An upstream over TLS must name a port from 0 to 65535 behind the last colon, before any
/// TLS name, and whatever begins neither with `https://` nor with `tls://` is no upstream.
/// Each of these is refused with the entry as it stands.
pub proof fn law_upstreams_that_are_refused(
    host: Seq<char>,
    port: Seq<char>,
    behind: Seq<char>,
    entry: Seq<char>,
)
    requires
        !host.contains('#'),
        !port.contains('#'),
        !port.contains(':'),
        behind.len() > 0 ==> behind[0] == '#',
        !(entry.len() >= 8 && entry.take(8) == seq!['h', 't', 't', 'p', 's', ':', '/', '/']),
        !(entry.len() >= 6 && entry.take(6) == seq!['t', 'l', 's', ':', '/', '/']),
    ensures
        ({
            let scheme = seq!['t', 'l', 's', ':', '/', '/'];
            let whole = scheme + (host + seq![':'] + port + behind);
            let bare = scheme + (host + behind);
            &&& unsigned(port, 65535) is None <==> upstream_of(whole) is Err
            &&& unsigned(port, 65535) is None ==> upstream_of(whole) == Err::<
                UpstreamView,
                ErrorView,
            >(ErrorView::UpstreamPort(whole))
            &&& !host.contains(':') ==> upstream_of(bare) == Err::<UpstreamView, ErrorView>(
                ErrorView::UpstreamNoPort(bare),
            )
            &&& upstream_of(entry) == Err::<UpstreamView, ErrorView>(
                ErrorView::UpstreamScheme(entry),
            )
        }),
{
    reveal_strlit("https://");
    reveal_strlit("tls://");
    let scheme = seq!['t', 'l', 's', ':', '/', '/'];
    assert("tls://"@ =~= scheme);
    assert("https://"@ =~= seq!['h', 't', 't', 'p', 's', ':', '/', '/']);
    let host_port = host + seq![':'] + port;
    let whole = scheme + (host_port + behind);
    let bare = scheme + (host + behind);
    lemma_tls_entry(host_port, behind);
    lemma_tls_entry(host, behind);
    assert(whole =~= scheme + (host + seq![':'] + port + behind));
    assert(!host_port.contains('#')) by {
        if host_port.contains('#') {
            let i = host_port.index_of('#');
            if i < host.len() {
                assert(host[i] == '#');
            } else if i > host.len() {
                assert(port[i - host.len() - 1] == '#');
            }
        }
    }
    let rest = host_port + behind;
    lemma_up_to_hash(host_port, behind);
    lemma_up_to_hash(host, behind);
    assert(rest.take(host_port.len() as int) =~= host_port);
    assert((host + behind).take(host.len() as int) =~= host);
    lemma_last_index(host_port, ':');
    lemma_last_index(host, ':');
    let colon = last_index(host_port, ':');
    assert(host_port[host.len() as int] == ':');
    assert(colon == host.len()) by {
        if colon > host.len() {
            assert(port[colon - host.len() - 1] == ':');
        }
    }
    assert(host_port.skip(colon + 1) =~= port);
    if !host.contains(':') && last_index(host, ':') >= 0 {
        assert(host[last_index(host, ':')] == ':');
    }
}

proof fn lemma_upstream_error(urls: Seq<Seq<char>>)
    ensures
        upstream_error(urls) is None <==> forall|i: int|
            0 <= i < urls.len() ==> upstream_of(#[trigger] urls[i]) is Ok,
        upstream_error(urls) matches Some(e) ==> exists|i: int|
            {
                &&& 0 <= i < urls.len()
                &&& upstream_of(#[trigger] urls[i]) == Err::<UpstreamView, ErrorView>(e)
                &&& forall|j: int| 0 <= j < i ==> upstream_of(#[trigger] urls[j]) is Ok
            },
    decreases urls.len(),
{
    if urls.len() > 0 {
        let init = urls.drop_last();
        lemma_upstream_error(init);
        assert(urls.last() == urls[urls.len() - 1]);
        if upstream_error(init) is None {
            assert forall|j: int| 0 <= j < urls.len() - 1 implies upstream_of(
                #[trigger] urls[j],
            ) is Ok by {
                assert(init[j] == urls[j]);
            }
        } else {
            let e = upstream_error(init)->0;
            let i = choose|i: int|
                {
                    &&& 0 <= i < init.len()
                    &&& upstream_of(#[trigger] init[i]) == Err::<UpstreamView, ErrorView>(e)
                    &&& forall|j: int| 0 <= j < i ==> upstream_of(#[trigger] init[j]) is Ok
                };
            assert(urls[i] == init[i]);
            assert forall|j: int| 0 <= j < i implies upstream_of(#[trigger] urls[j]) is Ok by {
                assert(init[j] == urls[j]);
            }
        }
    }
}

/// Whether there is a certificate with its key: both in the environment, or else both in
/// files that exist.
pub open spec fn has_certificate(config: ConfigView, tls: TlsSources) -> bool {
    ||| tls.cert_in_env && tls.key_in_env
    ||| {
        &&& !tls.cert_in_env && !tls.key_in_env
        &&& config.server.tls_cert is Some && tls.cert_is_file
        &&& config.server.tls_key is Some && tls.key_is_file
    }
}

/// A configuration is accepted if it has an upstream, all its upstreams can be read, it
/// has a certificate unless it needs none, DoT and DoH do not share a port, its cache has
/// no more than 1 GiB, and its lists are refreshed every second at the most often; and for
/// no other reason is one refused.
pub proof fn law_which_configurations_are_accepted(
    config: ConfigView,
    profile: Profile,
    tls: TlsSources,
)
    ensures
        config_error(config, profile, tls) is None <==> {
            &&& config.upstream.urls.len() > 0
            &&& forall|i: int|
                0 <= i < config.upstream.urls.len() ==> upstream_of(
                    #[trigger] config.upstream.urls[i],
                ) is Ok
            &&& profile.certless || has_certificate(config, tls)
            &&& profile.dot ==> config.server.dot_port != config.server.doh_port
            &&& config.cache.enabled ==> config.cache.max_size_bytes <= 1024 * 1024 * 1024
            &&& config.blocklists.urls.len() > 0 ==> config.blocklists.refresh_interval_secs >= 1
            &&& config.whitelist.urls.len() > 0 ==> config.whitelist.refresh_interval_secs >= 1
        },
{
    lemma_upstream_error(config.upstream.urls);
}

/// What a refused configuration is told is what is wrong with it.
pub proof fn law_what_a_refused_configuration_is_told(
    config: ConfigView,
    profile: Profile,
    tls: TlsSources,
)
    requires
        config_error(config, profile, tls) is Some,
    ensures
        match config_error(config, profile, tls)->0 {
            ErrorView::NoUpstream => config.upstream.urls.len() == 0,
            ErrorView::TlsHalfSet => !profile.certless && tls.cert_in_env != tls.key_in_env,
            ErrorView::TlsCertUnset => !profile.certless && !tls.cert_in_env && !tls.key_in_env
                && config.server.tls_cert is None,
            ErrorView::TlsCertMissing(path) => !profile.certless && !tls.cert_in_env
                && !tls.key_in_env && config.server.tls_cert == Some(path) && !tls.cert_is_file,
            ErrorView::TlsKeyUnset => !profile.certless && !tls.cert_in_env && !tls.key_in_env
                && config.server.tls_key is None,
            ErrorView::TlsKeyMissing(path) => !profile.certless && !tls.cert_in_env
                && !tls.key_in_env && config.server.tls_key == Some(path) && !tls.key_is_file,
            ErrorView::SamePorts => profile.dot && config.server.dot_port
                == config.server.doh_port,
            ErrorView::CacheTooLarge => config.cache.enabled && config.cache.max_size_bytes
                > 1_073_741_824,
            ErrorView::BlocklistRefreshZero => config.blocklists.urls.len() > 0
                && config.blocklists.refresh_interval_secs == 0,
            ErrorView::WhitelistRefreshZero => config.whitelist.urls.len() > 0
                && config.whitelist.refresh_interval_secs == 0,
            e => exists|i: int|
                0 <= i < config.upstream.urls.len() && upstream_of(
                    #[trigger] config.upstream.urls[i],
                ) == Err::<UpstreamView, ErrorView>(e),
        },
{
    lemma_upstream_error(config.upstream.urls);
}

/// Nothing is a static host that was not configured as one.
pub proof fn law_static_hosts_are_configured(entries: Seq<StaticEntry>, ttl: u32, name: Seq<char>)
    requires
        static_hosts_of(entries, ttl).contains_key(name),
    ensures
        exists|i: int|
            {
                &&& 0 <= i < entries.len()
                &&& normalized((#[trigger] entries[i]).name@) == name
                &&& static_hosts_of(entries, ttl)[name].ip == entries[i].ip
                &&& static_hosts_of(entries, ttl)[name].ttl == ttl
                &&& forall|j: int|
                    i < j < entries.len() ==> normalized((#[trigger] entries[j]).name@) != name
            },
    decreases entries.len(),
{
    let init = entries.drop_last();
    let last = entries.len() - 1;
    if normalized(entries[last].name@) == name {
        assert(static_hosts_of(entries, ttl)[name].ip == entries[last].ip);
    } else {
        law_static_hosts_are_configured(init, ttl, name);
        let i = choose|i: int|
            {
                &&& 0 <= i < init.len()
                &&& normalized((#[trigger] init[i]).name@) == name
                &&& static_hosts_of(init, ttl)[name].ip == init[i].ip
                &&& static_hosts_of(init, ttl)[name].ttl == ttl
                &&& forall|j: int|
                    i < j < init.len() ==> normalized((#[trigger] init[j]).name@) != name
            };
        assert(entries[i] == init[i]);
        assert forall|j: int| i < j < entries.len() implies normalized(
            (#[trigger] entries[j]).name@,
        ) != name by {
            if j < init.len() {
                assert(entries[j] == init[j]);
            }
        }
    }
}

/// The first variable of a name is the one that counts, and what is not there is not set.
pub proof fn law_variables_are_looked_up_by_name(
    before: Seq<EnvVar>,
    one: EnvVar,
    behind: Seq<EnvVar>,
    v: Variable,
)
    requires
        forall|i: int| 0 <= i < before.len() ==> (#[trigger] before[i]).name@ != v.spelled(),
        one.name@ == v.spelled(),
    ensures
        lookup(before, v) == Ok::<Option<Seq<char>>, ErrorView>(None),
        lookup(before + seq![one] + behind, v) == (match one.value {
            EnvValue::Text(s) => Ok::<Option<Seq<char>>, ErrorView>(Some(s@)),
            EnvValue::NotUnicode(s) => Err(ErrorView::NotUnicode(v, s@)),
        }),
    decreases before.len(),
{
    let all = before + seq![one] + behind;
    if before.len() > 0 {
        let rest = before.drop_first();
        assert forall|i: int| 0 <= i < rest.len() implies (#[trigger] rest[i]).name@
            != v.spelled() by {
            assert(rest[i] == before[i + 1]);
        }
        assert(before[0].name@ != v.spelled());
        law_variables_are_looked_up_by_name(rest, one, behind, v);
        assert(all[0] == before[0]);
        assert(all.drop_first() =~= rest + seq![one] + behind);
    } else {
        assert(all[0] == one);
    }
}

/// What a variable is set to, if it is set to a text.
pub open spec fn set_to(vars: Seq<EnvVar>, v: Variable) -> Option<Seq<char>> {
    match lookup(vars, v) {
        Ok(o) => o,
        Err(_) => None,
    }
}

/// A number as it was set, or the one that holds without.
pub open spec fn number_set(vars: Seq<EnvVar>, v: Variable, max: nat, otherwise: nat) -> nat {
    match set_to(vars, v) {
        Some(s) => match unsigned(s, max) {
            Some(n) => n,
            None => otherwise,
        },
        None => otherwise,
    }
}

/// A list as it was set, or the one that holds without.
pub open spec fn list_set(
    vars: Seq<EnvVar>,
    v: Variable,
    otherwise: Seq<Seq<char>>,
) -> Seq<Seq<char>> {
    match set_to(vars, v) {
        Some(s) => comma_list(s),
        None => otherwise,
    }
}

/// Whether a variable is not set, or set to a text that can be read.
pub open spec fn reads<T>(vars: Seq<EnvVar>, v: Variable, parse: spec_fn(Seq<char>) -> Option<T>) -> bool {
    lookup(vars, v) matches Ok(o) && (o matches Some(s) ==> parse(s) is Some)
}

pub open spec fn reads_number(vars: Seq<EnvVar>, v: Variable, max: nat) -> bool {
    reads(vars, v, |s: Seq<char>| unsigned(s, max))
}

/// Whether the path of a certificate or a key is set where one is needed.
pub open spec fn reads_path(
    vars: Seq<EnvVar>,
    v: Variable,
    profile: Profile,
    tls: TlsSources,
) -> bool {
    profile.certless || (lookup(vars, v) matches Ok(o) && (o is None ==> tls.cert_in_env
        || tls.key_in_env))
}

/// Whether everything that is read of the environment can be read.
pub open spec fn all_reads(vars: Seq<EnvVar>, profile: Profile, tls: TlsSources) -> bool {
    &&& reads(vars, Variable::BindAddress, |s: Seq<char>| ip(s))
    &&& reads_number(vars, Variable::Port, 65535)
    &&& lookup(vars, Variable::Port) == Ok::<Option<Seq<char>>, ErrorView>(None)
        ==> reads_number(vars, Variable::DohPort, 65535)
    &&& profile.dot ==> reads_number(vars, Variable::DotPort, 65535)
    &&& reads_path(vars, Variable::TlsCert, profile, tls)
    &&& reads_path(vars, Variable::TlsKey, profile, tls)
    &&& reads_number(vars, Variable::DefaultTtl, 4_294_967_295)
    &&& lookup(vars, Variable::UpstreamUrls) is Ok
    &&& reads(vars, Variable::UpstreamStrategy, |s: Seq<char>| strategy_of(s))
    &&& lookup(vars, Variable::BlocklistUrls) is Ok
    &&& lookup(vars, Variable::BlocklistDomains) is Ok
    &&& reads_number(vars, Variable::BlocklistRefreshSecs, 0xffff_ffff_ffff_ffff)
    &&& lookup(vars, Variable::WhitelistUrls) is Ok
    &&& lookup(vars, Variable::WhitelistDomains) is Ok
    &&& reads_number(vars, Variable::WhitelistRefreshSecs, 0xffff_ffff_ffff_ffff)
    &&& reads(vars, Variable::BlockMode, |s: Seq<char>| mode_of(s))
    &&& reads(vars, Variable::SinkholeIp, |s: Seq<char>| ipv4(s))
    &&& lookup(vars, Variable::StaticHosts) is Ok
    &&& set_to(vars, Variable::StaticHosts) matches Some(s) ==> static_hosts_in(
        comma_list(s),
    ) is Ok
    &&& reads(vars, Variable::CacheEnabled, |s: Seq<char>| bool_of(s))
    &&& reads_number(vars, Variable::CacheMaxSizeBytes, 0xffff_ffff_ffff_ffff)
    &&& set_to(vars, Variable::CacheMaxSizeBytes) is Some && cache_is_on(vars) ==> number_set(
        vars,
        Variable::CacheMaxSizeBytes,
        0xffff_ffff_ffff_ffff,
        0,
    ) >= 1024 * 1024
}

/// Whether the cache is on: unless it was switched off.
pub open spec fn cache_is_on(vars: Seq<EnvVar>) -> bool {
    match set_to(vars, Variable::CacheEnabled) {
        Some(s) => bool_of(s) != Some(false),
        None => true,
    }
}

proof fn lemma_first_error(errors: Seq<Option<ErrorView>>)
    ensures
        first_error(errors) is None <==> forall|i: int|
            0 <= i < errors.len() ==> (#[trigger] errors[i]) is None,
    decreases errors.len(),
{
    if errors.len() > 0 {
        let rest = errors.drop_first();
        lemma_first_error(rest);
        if errors[0] is None {
            if first_error(rest) is None {
                assert forall|i: int| 0 <= i < errors.len() implies (#[trigger] errors[i]) is None by {
                    if i > 0 {
                        assert(errors[i] == rest[i - 1]);
                    }
                }
            } else {
                let i = choose|i: int| 0 <= i < rest.len() && (#[trigger] rest[i]) is Some;
                assert(errors[i + 1] == rest[i]);
            }
        }
    }
}

proof fn lemma_list_errors(vars: Seq<EnvVar>, of: ListVariables)
    ensures
        first_error(list_errors(vars, of)) is None <==> {
            &&& lookup(vars, of.urls) is Ok
            &&& lookup(vars, of.domains) is Ok
            &&& reads_number(vars, of.refresh_secs, 0xffff_ffff_ffff_ffff)
        },
{
    let errors = list_errors(vars, of);
    lemma_first_error(errors);
    assert(errors.len() == 3);
    assert(first_error(errors) is None <==> errors[0] is None && errors[1] is None
        && errors[2] is None) by {
        if errors[0] is None && errors[1] is None && errors[2] is None {
            assert forall|i: int| 0 <= i < errors.len() implies (#[trigger] errors[i]) is None by {
                assert(i == 0 || i == 1 || i == 2);
            }
        }
    }
}

proof fn lemma_server_errors(vars: Seq<EnvVar>, profile: Profile, tls: TlsSources)
    ensures
        first_error(server_errors(vars, profile, tls)) is None <==> {
            &&& reads(vars, Variable::BindAddress, |s: Seq<char>| ip(s))
            &&& reads_number(vars, Variable::Port, 65535)
            &&& lookup(vars, Variable::Port) == Ok::<Option<Seq<char>>, ErrorView>(None)
                ==> reads_number(vars, Variable::DohPort, 65535)
            &&& profile.dot ==> reads_number(vars, Variable::DotPort, 65535)
            &&& reads_path(vars, Variable::TlsCert, profile, tls)
            &&& reads_path(vars, Variable::TlsKey, profile, tls)
            &&& reads_number(vars, Variable::DefaultTtl, 4_294_967_295)
        },
{
    let errors = server_errors(vars, profile, tls);
    lemma_first_error(errors);
    assert(errors.len() == 6);
    let none = errors[0] is None && errors[1] is None && errors[2] is None && errors[3] is None
        && errors[4] is None && errors[5] is None;
    assert(first_error(errors) is None <==> none) by {
        if none {
            assert forall|i: int| 0 <= i < errors.len() implies (#[trigger] errors[i]) is None by {
                assert(i == 0 || i == 1 || i == 2 || i == 3 || i == 4 || i == 5);
            }
        }
    }
}

proof fn lemma_pair(errors: Seq<Option<ErrorView>>)
    requires
        errors.len() == 2,
    ensures
        first_error(errors) is None <==> errors[0] is None && errors[1] is None,
{
    lemma_first_error(errors);
    if errors[0] is None && errors[1] is None {
        assert forall|i: int| 0 <= i < errors.len() implies (#[trigger] errors[i]) is None by {
            assert(i == 0 || i == 1);
        }
    }
}

proof fn lemma_all_reads(vars: Seq<EnvVar>, profile: Profile, tls: TlsSources)
    ensures
        first_error(read_errors(vars, profile, tls)) is None <==> all_reads(vars, profile, tls),
{
    let errors = read_errors(vars, profile, tls);
    lemma_first_error(errors);
    assert(errors.len() == 7);
    let none = errors[0] is None && errors[1] is None && errors[2] is None && errors[3] is None
        && errors[4] is None && errors[5] is None && errors[6] is None;
    assert(first_error(errors) is None <==> none) by {
        if none {
            assert forall|i: int| 0 <= i < errors.len() implies (#[trigger] errors[i]) is None by {
                assert(i == 0 || i == 1 || i == 2 || i == 3 || i == 4 || i == 5 || i == 6);
            }
        }
    }
    lemma_server_errors(vars, profile, tls);
    lemma_pair(upstream_errors(vars));
    lemma_list_errors(vars, blocklist_variables());
    lemma_list_errors(vars, whitelist_variables());
    lemma_pair(blocking_errors(vars));
    lemma_pair(cache_errors(vars));
}

/// An environment makes a configuration if and only if all that is read of it can be read,
/// and the configuration is one that is accepted. Then every setting is what its variable
/// says, and what is not set is as documented.
pub proof fn law_what_the_environment_says(
    vars: Seq<EnvVar>,
    memory_limit: Option<u64>,
    profile: Profile,
    tls: TlsSources,
)
    ensures
        env_config(vars, memory_limit, profile, tls) is Ok ==> all_reads(vars, profile, tls),
        all_reads(vars, profile, tls) ==> {
            let config = crate::env::config_in(vars, memory_limit, profile, tls);
            &&& env_config(vars, memory_limit, profile, tls) == (match config_error(
                config,
                profile,
                tls,
            ) {
                None => Ok::<ConfigView, ErrorView>(config),
                Some(e) => Err(e),
            })
            &&& config.server.bind_address == (match set_to(vars, Variable::BindAddress) {
                Some(s) => ip(s)->0,
                None => IpView::V4(seq![0u8, 0, 0, 0]),
            })
            &&& config.server.doh_port == (if set_to(vars, Variable::Port) is Some {
                number_set(vars, Variable::Port, 65535, 0)
            } else {
                number_set(
                    vars,
                    Variable::DohPort,
                    65535,
                    if profile.certless {
                        8053
                    } else {
                        443
                    },
                )
            })
            &&& config.server.dot_port == (if profile.dot {
                number_set(vars, Variable::DotPort, 65535, 8853)
            } else {
                8853
            })
            &&& config.server.tls_cert == (if profile.certless {
                None
            } else {
                set_to(vars, Variable::TlsCert)
            })
            &&& config.server.tls_key == (if profile.certless {
                None
            } else {
                set_to(vars, Variable::TlsKey)
            })
            &&& config.server.default_ttl == number_set(
                vars,
                Variable::DefaultTtl,
                4_294_967_295,
                300,
            )
            &&& config.upstream.strategy == (match set_to(vars, Variable::UpstreamStrategy) {
                Some(s) => strategy_of(s)->0,
                None => UpstreamStrategy::Sequential,
            })
            &&& config.upstream.urls == list_set(
                vars,
                Variable::UpstreamUrls,
                seq!["https://cloudflare-dns.com/dns-query"@],
            )
        },
{
    lemma_all_reads(vars, profile, tls);
}

/// The same for the lists, for what is done about blocked names, and for the cache.
pub proof fn law_what_the_environment_says_of_blocking(
    vars: Seq<EnvVar>,
    memory_limit: Option<u64>,
    profile: Profile,
    tls: TlsSources,
)
    requires
        env_config(vars, memory_limit, profile, tls) is Ok,
    ensures
        ({
            let config = env_config(vars, memory_limit, profile, tls)->Ok_0;
            &&& config.blocklists.urls == list_set(vars, Variable::BlocklistUrls, seq![])
            &&& config.blocklists.domains == list_set(vars, Variable::BlocklistDomains, seq![])
            &&& config.blocklists.refresh_interval_secs == number_set(
                vars,
                Variable::BlocklistRefreshSecs,
                0xffff_ffff_ffff_ffff,
                12 * 3600,
            )
            &&& config.whitelist.urls == list_set(vars, Variable::WhitelistUrls, seq![])
            &&& config.whitelist.domains == list_set(vars, Variable::WhitelistDomains, seq![])
            &&& config.whitelist.refresh_interval_secs == number_set(
                vars,
                Variable::WhitelistRefreshSecs,
                0xffff_ffff_ffff_ffff,
                12 * 3600,
            )
            &&& config.blocking.mode == (match set_to(vars, Variable::BlockMode) {
                Some(s) => mode_of(s)->0,
                None => BlockMode::Nxdomain,
            })
            &&& config.blocking.sinkhole_ip == (match set_to(vars, Variable::SinkholeIp) {
                Some(s) => ipv4(s)->0,
                None => seq![0u8, 0, 0, 0],
            })
            &&& config.static_hosts == (match set_to(vars, Variable::StaticHosts) {
                Some(s) => static_hosts_in(comma_list(s))->Ok_0,
                None => seq![],
            })
            &&& config.cache.enabled == cache_is_on(vars)
            &&& config.cache.max_size_bytes == number_set(
                vars,
                Variable::CacheMaxSizeBytes,
                0xffff_ffff_ffff_ffff,
                default_cache_bytes(memory_limit) as nat,
            )
        }),
{
    lemma_all_reads(vars, profile, tls);
    assert(all_reads(vars, profile, tls));
}

/// Without a setting the cache has a quarter of the memory there is, but no less than 1 MiB
/// and no more than 64 MiB; and 64 MiB if the memory is not limited.
pub proof fn law_the_default_cache(limit: u64)
    ensures
        default_cache_bytes(None) == 64 * 1024 * 1024,
        1024 * 1024 <= default_cache_bytes(Some(limit)) <= 64 * 1024 * 1024,
        1024 * 1024 <= limit / 4 <= 64 * 1024 * 1024 ==> default_cache_bytes(Some(limit)) == limit
            / 4,
        limit / 4 < 1024 * 1024 ==> default_cache_bytes(Some(limit)) == 1024 * 1024,
        limit / 4 > 64 * 1024 * 1024 ==> default_cache_bytes(Some(limit)) == 64 * 1024 * 1024,
{
}

/// The words for settings that are none but words.
pub proof fn law_words_of_settings(s: Seq<char>)
    ensures
        bool_of(s) == Some(true) <==> s == "true"@,
        bool_of(s) == Some(false) <==> s == "false"@,
        strategy_of(s) == Some(UpstreamStrategy::Sequential) <==> s == "sequential"@,
        strategy_of(s) == Some(UpstreamStrategy::Hedged) <==> s == "hedged"@,
        strategy_of(s) == Some(UpstreamStrategy::Race) <==> s == "race"@,
        mode_of(s) == Some(BlockMode::Nxdomain) <==> s == "nxdomain"@,
        mode_of(s) == Some(BlockMode::Sinkhole) <==> s == "sinkhole"@,
{
    reveal_strlit("true");
    reveal_strlit("false");
    reveal_strlit("sequential");
    reveal_strlit("hedged");
    reveal_strlit("race");
    reveal_strlit("nxdomain");
    reveal_strlit("sinkhole");
    assert("true"@.len() == 4 && "false"@.len() == 5);
    assert("sequential"@.len() == 10 && "hedged"@.len() == 6 && "race"@.len() == 4);
    assert("nxdomain"@[0] == 'n' && "sinkhole"@[0] == 's');
}

proof fn lemma_split_joined(a: Seq<char>, b: Seq<char>, c: char)
    ensures
        split(a + seq![c] + b, c) == split(a, c) + split(b, c),
    decreases a.len(),
{
    let i = first_index(a, c);
    lemma_first_index(a, c);
    if i < a.len() {
        let piece = a.take(i);
        let rest = a.skip(i + 1);
        assert(!piece.contains(c)) by {
            if piece.contains(c) {
                let k = piece.index_of(c);
                assert(a[k] == c);
            }
        }
        lemma_split_joined(rest, b, c);
        assert(a =~= piece + seq![c] + rest);
        assert(a + seq![c] + b =~= piece + seq![c] + (rest + seq![c] + b));
        law_split_pieces(piece, rest, c);
        law_split_pieces(piece, rest + seq![c] + b, c);
        assert(split(a + seq![c] + b, c) =~= split(a, c) + split(b, c));
    } else {
        assert(!a.contains(c)) by {
            if a.contains(c) {
                let k = a.index_of(c);
                assert(a[k] == c);
            }
        }
        law_split_pieces(a, b, c);
    }
}

proof fn lemma_entries_joined(a: Seq<Seq<char>>, b: Seq<Seq<char>>)
    ensures
        entries_of_list(a + b) == entries_of_list(a) + entries_of_list(b),
    decreases b.len(),
{
    if b.len() > 0 {
        assert((a + b).drop_last() =~= a + b.drop_last());
        lemma_entries_joined(a, b.drop_last());
        assert(entries_of_list(a + b) =~= entries_of_list(a) + entries_of_list(b));
    } else {
        assert(a + b =~= a);
        assert(entries_of_list(a) + entries_of_list(b) =~= entries_of_list(a));
    }
}

/// A list is made of what stands between its commas, without the white space around it.
/// Where nothing stands there is no entry.
pub proof fn law_lists_are_separated_by_commas(a: Seq<char>, b: Seq<char>, piece: Seq<char>)
    requires
        !piece.contains(','),
    ensures
        comma_list(a + seq![','] + b) == comma_list(a) + comma_list(b),
        trim(piece).len() > 0 ==> comma_list(piece) == seq![trim(piece)],
        trim(piece).len() == 0 ==> comma_list(piece) == Seq::<Seq<char>>::empty(),
{
    lemma_split_joined(a, b, ',');
    lemma_entries_joined(split(a, ','), split(b, ','));
    law_split_pieces(piece, seq![], ',');
    assert(seq![piece].drop_last() =~= seq![]);
    assert(entries_of_list(seq![]) =~= seq![]);
    assert(entries_of_list(seq![piece]) =~= (if trim(piece).len() > 0 {
        seq![trim(piece)]
    } else {
        seq![]
    }));
}

/// A static host is written as its name, an equals sign and its IPv4 address, with or
/// without white space around either. Without the sign, or with anything else than such
/// an address, the entry is refused as it stands.
pub proof fn law_static_hosts_are_written_with_an_equals_sign(
    name: Seq<char>,
    address: Seq<char>,
)
    requires
        !name.contains('='),
    ensures
        ({
            let entry = name + seq!['='] + address;
            &&& match ipv4(trim(address)) {
                Some(octets) => static_host_of(entry) == Ok::<
                    (Seq<char>, Seq<u8>),
                    ErrorView,
                >((trim(name), octets)),
                None => static_host_of(entry) == Err::<(Seq<char>, Seq<u8>), ErrorView>(
                    ErrorView::StaticHostIp(entry),
                ),
            }
            &&& static_host_of(name) == Err::<(Seq<char>, Seq<u8>), ErrorView>(
                ErrorView::StaticHostForm(name),
            )
        }),
{
    let entry = name + seq!['='] + address;
    lemma_first(name, address, '=');
    assert(entry.take(name.len() as int) =~= name);
    assert(entry.skip(name.len() as int + 1) =~= address);
}

/// Every static host that was given is there, with the address that was given last for
/// its name, and no other is. One bad entry, and the first one of these, has them all
/// refused.
pub proof fn law_static_hosts_are_as_given(entries: Seq<Seq<char>>, i: int)
    requires
        0 <= i < entries.len(),
        static_hosts_in(entries) is Ok,
    ensures
        static_host_of(entries[i]) is Ok,
        (forall|j: int|
            i < j < entries.len() ==> static_host_of(#[trigger] entries[j])->Ok_0.0
                != static_host_of(entries[i])->Ok_0.0) ==> static_hosts_in(entries)->Ok_0.contains(
            static_host_of(entries[i])->Ok_0,
        ),
    decreases entries.len(),
{
    let init = entries.drop_last();
    let hosts = static_hosts_in(init)->Ok_0;
    let last = static_host_of(entries.last())->Ok_0;
    let after = with_host(hosts, last);
    lemma_host_found(hosts, last.0);
    let at = host_index(hosts, last.0);
    if i == entries.len() - 1 {
        if at < hosts.len() {
            assert(after[at] == last);
        } else {
            assert(after[hosts.len() as int] == last);
        }
    } else {
        law_static_hosts_are_as_given(init, i);
        assert(init[i] == entries[i]);
        let one = static_host_of(entries[i])->Ok_0;
        if forall|j: int|
            i < j < entries.len() ==> static_host_of(#[trigger] entries[j])->Ok_0.0 != one.0 {
            assert forall|j: int| i < j < init.len() implies static_host_of(
                #[trigger] init[j],
            )->Ok_0.0 != one.0 by {
                assert(init[j] == entries[j]);
            }
            let k = hosts.index_of(one);
            assert(static_host_of(entries[entries.len() - 1])->Ok_0.0 != one.0);
            assert(after[k] == one) by {
                if at < hosts.len() {
                    assert(k != at);
                }
            }
        }
    }
}

/// Nothing is a static host that was not given, and the first bad entry is what is told.
pub proof fn law_static_hosts_are_given(entries: Seq<Seq<char>>, k: int)
    ensures
        match static_hosts_in(entries) {
            Ok(hosts) => 0 <= k < hosts.len() ==> exists|i: int|
                0 <= i < entries.len() && static_host_of(#[trigger] entries[i]) == Ok::<
                    (Seq<char>, Seq<u8>),
                    ErrorView,
                >(hosts[k]),
            Err(e) => exists|i: int|
                {
                    &&& 0 <= i < entries.len()
                    &&& static_host_of(#[trigger] entries[i]) == Err::<
                        (Seq<char>, Seq<u8>),
                        ErrorView,
                    >(e)
                    &&& forall|j: int|
                        0 <= j < i ==> static_host_of(#[trigger] entries[j]) is Ok
                },
        },
    decreases entries.len(),
{
    if entries.len() > 0 {
        let init = entries.drop_last();
        let last = entries.len() - 1;
        assert(entries.last() == entries[last]);
        law_static_hosts_are_given(init, k);
        match static_hosts_in(init) {
            Err(e) => {
                let i = choose|i: int|
                    {
                        &&& 0 <= i < init.len()
                        &&& static_host_of(#[trigger] init[i]) == Err::<
                            (Seq<char>, Seq<u8>),
                            ErrorView,
                        >(e)
                        &&& forall|j: int|
                            0 <= j < i ==> static_host_of(#[trigger] init[j]) is Ok
                    };
                assert(entries[i] == init[i]);
                assert forall|j: int| 0 <= j < i implies static_host_of(
                    #[trigger] entries[j],
                ) is Ok by {
                    assert(entries[j] == init[j]);
                }
            },
            Ok(hosts) => {
                assert forall|j: int| 0 <= j < last implies static_host_of(
                    #[trigger] entries[j],
                ) is Ok by {
                    law_static_hosts_are_as_given(init, j);
                    assert(entries[j] == init[j]);
                }
                if let Ok(host) = static_host_of(entries[last]) {
                    let after = with_host(hosts, host);
                    lemma_host_found(hosts, host.0);
                    if 0 <= k < after.len() {
                        if after[k] != host {
                            assert(k < hosts.len() && after[k] == hosts[k]);
                            let i = choose|i: int|
                                0 <= i < init.len() && static_host_of(#[trigger] init[i]) == Ok::<
                                    (Seq<char>, Seq<u8>),
                                    ErrorView,
                                >(hosts[k]);
                            assert(entries[i] == init[i]);
                        }
                    }
                }
            },
        }
    }
}

/// What a refusal says names the variable, the entry or the setting that is wrong.
pub proof fn law_what_refusals_say(v: Variable, s: Seq<char>, cause: CauseView)
    ensures
        ErrorView::NotUnicode(v, s).text() == v.spelled() + " must be valid Unicode: "@ + s,
        ErrorView::Invalid(v, cause).text() == "invalid "@ + v.spelled() + ": "@ + cause.text(),
        ErrorView::Missing(v).text() == v.spelled() + " must be set"@,
        ErrorView::StaticHostForm(s).text() == "invalid DNSRS_STATIC_HOSTS entry '"@ + s
            + "': expected name=ip"@,
        ErrorView::StaticHostIp(s).text() == "invalid IP in DNSRS_STATIC_HOSTS entry '"@ + s
            + "'"@,
        ErrorView::UpstreamScheme(s).text() == "upstream '"@ + s
            + "' must start with https:// (DoH) or tls:// (DoT)"@,
        ErrorView::UpstreamNoPort(s).text() == "upstream '"@ + s
            + "' is missing a port, expected tls://host:port"@,
        ErrorView::UpstreamPort(s).text() == "upstream '"@ + s + "' has an invalid port"@,
        ErrorView::TlsCertMissing(s).text() == "server.tls_cert does not point to a file: "@ + s,
        ErrorView::TlsKeyMissing(s).text() == "server.tls_key does not point to a file: "@ + s,
        ErrorView::TlsCertUnset.text() == "server.tls_cert is not set"@,
        ErrorView::TlsKeyUnset.text() == "server.tls_key is not set"@,
        ErrorView::NoUpstream.text() == "config must define at least one entry in [upstream] urls"@,
        ErrorView::SamePorts.text() == "server.dot_port and server.doh_port must be different"@,
        ErrorView::BlocklistRefreshZero.text()
            == "blocklists.refresh_interval_secs must not be 0"@,
        ErrorView::WhitelistRefreshZero.text() == "whitelist.refresh_interval_secs must not be 0"@,
{
    reveal_strlit("");
    let none = ""@;
    assert(none =~= seq![]);
    let unicode = " must be valid Unicode: "@;
    assert(none + v.spelled() + (unicode + s + none) =~= v.spelled() + unicode + s);
    assert("invalid "@ + v.spelled() + (": "@ + cause.text() + none) =~= "invalid "@ + v.spelled()
        + ": "@ + cause.text());
    assert(none + v.spelled() + " must be set"@ =~= v.spelled() + " must be set"@);
    let cert = "server.tls_cert does not point to a file: "@;
    assert(cert + s + none =~= cert + s);
    let key = "server.tls_key does not point to a file: "@;
    assert(key + s + none =~= key + s);
}

/// What is wrong with a value depends on what its variable wants: an address, a word, or a
/// number, of 16 bits for a port and of 32 for a time to live.
pub proof fn law_what_is_wrong_with_a_value(s: Seq<char>)
    ensures
        cause_of(Variable::BindAddress, s) == CauseView::NotIp,
        cause_of(Variable::SinkholeIp, s) == CauseView::NotIpv4,
        cause_of(Variable::CacheEnabled, s) == CauseView::NotBool,
        cause_of(Variable::UpstreamStrategy, s) == CauseView::Strategy(s),
        cause_of(Variable::BlockMode, s) == CauseView::Mode(s),
        number_error(s, 65535) matches Some(e) ==> cause_of(Variable::Port, s)
            == CauseView::Number(e) && cause_of(Variable::DohPort, s) == CauseView::Number(e)
            && cause_of(Variable::DotPort, s) == CauseView::Number(e),
        number_error(s, 4_294_967_295) matches Some(e) ==> cause_of(Variable::DefaultTtl, s)
            == CauseView::Number(e),
        number_error(s, 0xffff_ffff_ffff_ffff) matches Some(e) ==> cause_of(
            Variable::BlocklistRefreshSecs,
            s,
        ) == CauseView::Number(e) && cause_of(Variable::WhitelistRefreshSecs, s)
            == CauseView::Number(e) && cause_of(Variable::CacheMaxSizeBytes, s)
            == CauseView::Number(e),
{
}

/// What variables are called.
pub proof fn law_names_of_variables()
    ensures
        Variable::BindAddress.spelled() == "DNSRS_BIND_ADDRESS"@,
        Variable::Port.spelled() == "PORT"@,
        Variable::DohPort.spelled() == "DNSRS_DOH_PORT"@,
        Variable::DotPort.spelled() == "DNSRS_DOT_PORT"@,
        Variable::TlsCert.spelled() == "DNSRS_TLS_CERT"@,
        Variable::TlsKey.spelled() == "DNSRS_TLS_KEY"@,
        Variable::DefaultTtl.spelled() == "DNSRS_DEFAULT_TTL"@,
        Variable::UpstreamUrls.spelled() == "DNSRS_UPSTREAM_URLS"@,
        Variable::UpstreamStrategy.spelled() == "DNSRS_UPSTREAM_STRATEGY"@,
        Variable::BlocklistUrls.spelled() == "DNSRS_BLOCKLIST_URLS"@,
        Variable::BlocklistDomains.spelled() == "DNSRS_BLOCKLIST_DOMAINS"@,
        Variable::BlocklistRefreshSecs.spelled() == "DNSRS_BLOCKLIST_REFRESH_SECS"@,
        Variable::WhitelistUrls.spelled() == "DNSRS_WHITELIST_URLS"@,
        Variable::WhitelistDomains.spelled() == "DNSRS_WHITELIST_DOMAINS"@,
        Variable::WhitelistRefreshSecs.spelled() == "DNSRS_WHITELIST_REFRESH_SECS"@,
        Variable::BlockMode.spelled() == "DNSRS_BLOCK_MODE"@,
        Variable::SinkholeIp.spelled() == "DNSRS_SINKHOLE_IP"@,
        Variable::StaticHosts.spelled() == "DNSRS_STATIC_HOSTS"@,
        Variable::CacheEnabled.spelled() == "DNSRS_CACHE_ENABLED"@,
        Variable::CacheMaxSizeBytes.spelled() == "DNSRS_CACHE_MAX_SIZE_BYTES"@,
{
}

} // verus!
