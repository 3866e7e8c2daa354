//! Which listeners there are, and what starts, reloads and ends the resolver.

use vstd::prelude::*;
use vstd::string::*;

use crate::config::{Config, ListenAddress, Profile};
use crate::text::{same_chars, to_chars};

verus! {

/// How long startup may spend on establishing upstream connections before it begins
/// to accept clients, in milliseconds.
pub const UPSTREAM_WARMUP_TIMEOUT: u64 = 1_000;

#[derive(Debug, Clone, Copy, PartialEq, Eq, Structural)]
pub enum Protocol {
    Dot,
    Doh,
}

impl Protocol {
    pub open spec fn spelled(self) -> Seq<char> {
        match self {
            Protocol::Dot => "DoT"@,
            Protocol::Doh => "DoH"@,
        }
    }

    pub fn name(&self) -> (r: &'static str)
        ensures
            r@ == self.spelled(),
    {
        match self {
            Protocol::Dot => "DoT",
            Protocol::Doh => "DoH",
        }
    }
}

/// A listener to start.
pub struct Listener {
    pub protocol: Protocol,
    pub listen: ListenAddress,
    /// Whether the listener terminates TLS itself.
    pub tls: bool,
}

/// A listener for a protocol, at the configured address and port.
pub open spec fn listens(l: Listener, protocol: Protocol, config: Config, profile: Profile) -> bool {
    &&& l.protocol == protocol
    &&& l.listen.address == config.server.bind_address
    &&& l.listen.port == (match protocol {
        Protocol::Dot => config.server.dot_port,
        Protocol::Doh => config.server.doh_port,
    })
    &&& l.tls == !profile.certless
}

/// The listeners of a profile, or nothing if it has none.
pub fn plan_listeners(config: &Config, profile: Profile) -> (r: Option<Vec<Listener>>)
    ensures
        match r {
            None => !profile.dot && !profile.doh,
            Some(v) => if profile.dot && profile.doh {
                &&& v@.len() == 2
                &&& listens(v@[0], Protocol::Dot, *config, profile)
                &&& listens(v@[1], Protocol::Doh, *config, profile)
            } else if profile.dot {
                v@.len() == 1 && listens(v@[0], Protocol::Dot, *config, profile)
            } else {
                profile.doh && v@.len() == 1 && listens(v@[0], Protocol::Doh, *config, profile)
            },
        },
{
    if !profile.dot && !profile.doh {
        return None;
    }
    let mut v: Vec<Listener> = Vec::new();
    if profile.dot {
        v.push(
            Listener {
                protocol: Protocol::Dot,
                listen: config.server.dot_listen(),
                tls: !profile.certless,
            },
        );
    }
    if profile.doh {
        v.push(
            Listener {
                protocol: Protocol::Doh,
                listen: config.server.doh_listen(),
                tls: !profile.certless,
            },
        );
    }
    Some(v)
}

/// How a listener ended.
#[derive(Debug, Clone, Copy, PartialEq, Eq, Structural)]
pub enum Ending {
    Finished,
    Failed,
    Panicked,
}

/// What there is to say about a listener that ended.
pub open spec fn ending_text(protocol: Protocol, ending: Ending) -> Option<Seq<char>> {
    match ending {
        Ending::Finished => None,
        Ending::Failed => Some(protocol.spelled() + " listener exited"@),
        Ending::Panicked => Some(protocol.spelled() + " task panicked"@),
    }
}

pub fn report_listener_exit(protocol: Protocol, ending: Ending) -> (r: Option<String>)
    ensures
        match r {
            Some(s) => ending_text(protocol, ending) == Some(s@),
            None => ending_text(protocol, ending) is None,
        },
{
    let mut r: String = protocol.name().to_owned();
    match ending {
        Ending::Finished => None,
        Ending::Failed => {
            r.append(" listener exited");
            Some(r)
        },
        Ending::Panicked => {
            r.append(" task panicked");
            Some(r)
        },
    }
}

/// What the resolver waits for while it runs.
#[derive(Debug, Clone, Copy, PartialEq, Eq, Structural)]
pub enum Happening {
    /// The listener at this position ended.
    ListenerEnded(usize, Ending),
    /// The process was told to stop.
    Stop,
    /// The configuration file was looked at, and could not be read.
    ConfigUnreadable,
    /// The configuration file was looked at, and is as before.
    ConfigUnchanged,
    /// The configuration file has changed, but cannot be loaded.
    ConfigInvalid,
    /// The configuration file has changed, and was loaded.
    ConfigChanged,
}

/// What is done about it.
#[derive(Debug, Clone, Copy, PartialEq, Eq, Structural)]
pub enum Decision {
    /// Go on as before.
    Continue,
    /// Go on as before, and warn.
    Warn,
    /// Stop all listeners, wait for them, and start anew with the configuration that
    /// was loaded.
    Reload,
    /// Stop all listeners, wait for them, and exit.
    Exit,
    /// As `Exit`, after the listener at this position ended, and with its error if
    /// it has one.
    ExitAfter(usize, Ending),
}

pub open spec fn decision(happening: Happening) -> Decision {
    match happening {
        Happening::ListenerEnded(index, ending) => Decision::ExitAfter(index, ending),
        Happening::Stop => Decision::Exit,
        Happening::ConfigUnreadable => Decision::Warn,
        Happening::ConfigUnchanged => Decision::Continue,
        Happening::ConfigInvalid => Decision::Warn,
        Happening::ConfigChanged => Decision::Reload,
    }
}

/// What is done about what happened. A configuration that cannot be read or loaded
/// never ends the resolver: the previous one stays in force.
pub fn decide(happening: Happening) -> (r: Decision)
    ensures
        r == decision(happening),
{
    match happening {
        Happening::ListenerEnded(index, ending) => Decision::ExitAfter(index, ending),
        Happening::Stop => Decision::Exit,
        Happening::ConfigUnreadable => Decision::Warn,
        Happening::ConfigUnchanged => Decision::Continue,
        Happening::ConfigInvalid => Decision::Warn,
        Happening::ConfigChanged => Decision::Reload,
    }
}

/// Whether the resolver goes on as it is.
pub open spec fn keeps_running(d: Decision) -> bool {
    d == Decision::Continue || d == Decision::Warn
}

/// Whether the configuration file must be loaded again: only if it has another text
/// than when it was last loaded.
pub fn must_reload(current: &str, read: &str) -> (r: bool)
    ensures
        r == (current@ != read@),
{
    let a: Vec<char> = to_chars(current);
    let b: Vec<char> = to_chars(read);
    !same_chars(a.as_slice(), b.as_slice())
}

/// The resolver keeps running until a listener ends, it is told to stop, or there is
/// a new configuration that can be loaded.
pub proof fn law_bad_configurations_do_not_stop_the_resolver(happening: Happening)
    ensures
        keeps_running(decision(happening)) <==> happening == Happening::ConfigUnreadable
            || happening == Happening::ConfigUnchanged || happening == Happening::ConfigInvalid,
{
}

/// The listeners to wait for after the one at a position ended: all others.
pub fn others(count: usize, ended: usize) -> (r: Vec<usize>)
    requires
        ended < count,
    ensures
        r@.len() == count - 1,
        r@.no_duplicates(),
        forall|i: usize| #[trigger] r@.contains(i) <==> i < count && i != ended,
{
    let mut r: Vec<usize> = Vec::new();
    let mut i: usize = 0;
    while i < count
        invariant
            i <= count,
            ended < count,
            r@.len() == (if i <= ended {
                i as int
            } else {
                i - 1
            }),
            forall|j: int|
                0 <= j < r@.len() ==> #[trigger] r@[j] == (if j < ended {
                    j
                } else {
                    j + 1
                }),
        decreases count - i,
    {
        if i != ended {
            r.push(i);
        }
        i = i + 1;
    }
    proof {
        assert forall|k: usize| k < count && k != ended implies #[trigger] r@.contains(k) by {
            let j = if k < ended {
                k as int
            } else {
                k - 1
            };
            assert(r@[j] == k);
        }
    }
    r
}

/// What is done about each happening: a listener that ended and a request to stop end the
/// resolver, a new configuration is taken over, a bad one is only warned of, and the same
/// one is no event at all.
pub proof fn law_what_is_done_about_a_happening(
    happening: Happening,
    index: usize,
    ending: Ending,
)
    ensures
        decision(happening) == Decision::Exit <==> happening == Happening::Stop,
        decision(happening) == Decision::Reload <==> happening == Happening::ConfigChanged,
        decision(happening) == Decision::Continue <==> happening == Happening::ConfigUnchanged,
        decision(happening) == Decision::Warn <==> happening == Happening::ConfigUnreadable
            || happening == Happening::ConfigInvalid,
        decision(happening) == Decision::ExitAfter(index, ending) <==> happening
            == Happening::ListenerEnded(index, ending),
{
}

/// Each listener has its own configured port at the one configured address, and speaks
/// TLS unless there are no certificates.
pub proof fn law_listeners_are_as_configured(
    l: Listener,
    protocol: Protocol,
    config: Config,
    profile: Profile,
)
    requires
        listens(l, protocol, config, profile),
    ensures
        l.protocol == protocol,
        l.listen.address == config.server.bind_address,
        protocol == Protocol::Dot ==> l.listen.port == config.server.dot_port,
        protocol == Protocol::Doh ==> l.listen.port == config.server.doh_port,
        l.tls <==> !profile.certless,
{
}

/// A listener that just finished is nothing to report. One that failed and one that
/// panicked are reported by the protocol's name, and told apart.
pub proof fn law_endings_are_reported(protocol: Protocol)
    ensures
        ending_text(protocol, Ending::Finished) is None,
        ending_text(protocol, Ending::Failed) == Some(protocol.spelled() + " listener exited"@),
        ending_text(protocol, Ending::Panicked) == Some(protocol.spelled() + " task panicked"@),
        Protocol::Dot.spelled() == seq!['D', 'o', 'T'],
        Protocol::Doh.spelled() == seq!['D', 'o', 'H'],
{
    reveal_strlit("DoT");
    reveal_strlit("DoH");
    assert(Protocol::Dot.spelled() =~= seq!['D', 'o', 'T']);
    assert(Protocol::Doh.spelled() =~= seq!['D', 'o', 'H']);
}

} // verus!
