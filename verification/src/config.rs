//! Enumeration configuration and the resolver plan it selects. A custom DNS
//! server address is honoured only when it is a valid IP address; an invalid
//! address silently falls back to the system/default path, exactly as if no
//! custom server had been configured at all.

use vstd::prelude::*;
use crate::ip::is_ip_text;
use crate::ip::is_ipv4_text;
use crate::ip::is_ip_bytes;
use crate::ip::is_ipv4_bytes;

verus! {

/// Per-query attempts every resolver this library configures is given.
pub const DNS_ATTEMPTS: usize = 2;

/// The configuration an enumeration run works under.
pub struct EnumConfig {
    /// The target domain, as bytes.
    pub target: Vec<u8>,
    /// An optional custom DNS server address, as text.
    pub dns_server: Option<Vec<u8>>,
    /// Worker count; at least 1.
    pub threads: usize,
    /// Per-query timeout in seconds; at least 1.
    pub timeout: u64,
}

impl EnumConfig {
    /// The configuration invariant: at least one worker, a timeout of at
    /// least one second, and a server address short enough to inspect.
    pub open spec fn wf(&self) -> bool {
        &&& self.threads >= 1
        &&& self.timeout >= 1
        &&& self.dns_server is Some ==> self.dns_server.unwrap()@.len() + 7 <= usize::MAX
    }

    /// Builds a configuration, rejecting a worker count or timeout of zero.
    pub fn new(target: Vec<u8>, dns_server: Option<Vec<u8>>, threads: usize, timeout: u64) -> (r:
        Option<EnumConfig>)
        requires
            dns_server is Some ==> dns_server.unwrap()@.len() + 7 <= usize::MAX,
        ensures
            (r is Some) <==> (threads >= 1 && timeout >= 1),
            r matches Some(c) ==> c.wf() && c.target == target && c.dns_server == dns_server
                && c.threads == threads && c.timeout == timeout,
    {
        if threads >= 1 && timeout >= 1 {
            Some(EnumConfig { target, dns_server, threads, timeout })
        } else {
            None
        }
    }
}

/// How a worker's resolver is to be built.
pub enum ResolverPlan {
    /// Query the given server directly over UDP on port 53, with the
    /// configured timeout and two attempts, trusting negative responses.
    /// `socket_text` is the textual socket address, `ip:53` or `[ip]:53`.
    Custom { socket_text: Vec<u8>, timeout: u64 },
    /// Use the host's system DNS configuration, which keeps its own timeout
    /// and attempts; if it is unavailable, fall back to the built-in default
    /// servers with the configured timeout and two attempts.
    SystemDefault { timeout: u64 },
}

/// The mathematical model of a resolver plan.
pub ghost enum PlanModel {
    Custom { socket_text: Seq<u8>, timeout: u64 },
    SystemDefault { timeout: u64 },
}

impl View for ResolverPlan {
    type V = PlanModel;

    open spec fn view(&self) -> PlanModel {
        match self {
            ResolverPlan::Custom { socket_text, timeout } => PlanModel::Custom {
                socket_text: socket_text@,
                timeout: *timeout,
            },
            ResolverPlan::SystemDefault { timeout } => PlanModel::SystemDefault {
                timeout: *timeout,
            },
        }
    }
}

/// The textual socket address of a custom server on the standard DNS port:
/// `ip:53` for IPv4, `[ip]:53` for IPv6.
pub open spec fn socket_text_spec(server: Seq<u8>) -> Seq<u8> {
    if is_ipv4_text(server) {
        server + seq![58u8, 53u8, 51u8]
    } else {
        seq![91u8] + server + seq![93u8, 58u8, 53u8, 51u8]
    }
}

/// The plan a configuration selects: the custom server exactly when its
/// address is a valid IP, the system/default path otherwise.
pub open spec fn plan_model(dns_server: Option<Seq<u8>>, timeout: u64) -> PlanModel {
    if dns_server is Some && is_ip_text(dns_server.unwrap()) {
        PlanModel::Custom { socket_text: socket_text_spec(dns_server.unwrap()), timeout }
    } else {
        PlanModel::SystemDefault { timeout }
    }
}

/// A custom DNS server address that is not a valid IP selects exactly the
/// plan that no custom server at all selects: the fallback is silent, not
/// an error.
pub proof fn lemma_invalid_server_like_none(server: Seq<u8>, timeout: u64)
    requires
        !is_ip_text(server),
    ensures
        plan_model(Some(server), timeout) == plan_model(None, timeout),
{
}

/// Appends `:53` (IPv4) or wraps in brackets and appends `:53` (IPv6).
fn build_socket_text(server: &Vec<u8>, v4: bool) -> (r: Vec<u8>)
    requires
        server@.len() + 7 <= usize::MAX,
        v4 == is_ipv4_text(server@),
    ensures
        r@ == socket_text_spec(server@),
{
    let mut r: Vec<u8> = Vec::new();
    if !v4 {
        r.push(91u8);
    }
    let mut i: usize = 0;
    while i < server.len()
        invariant
            i <= server@.len(),
            r@ == (if v4 {
                Seq::<u8>::empty()
            } else {
                seq![91u8]
            }) + server@.take(i as int),
        decreases server@.len() - i,
    {
        r.push(server[i]);
        proof {
            assert(server@.take(i + 1) =~= server@.take(i as int).push(server@[i as int]));
            assert(r@ =~= (if v4 {
                Seq::<u8>::empty()
            } else {
                seq![91u8]
            }) + server@.take(i + 1));
        }
        i = i + 1;
    }
    proof {
        assert(server@.take(server@.len() as int) =~= server@);
    }
    if !v4 {
        r.push(93u8);
    }
    r.push(58u8);
    r.push(53u8);
    r.push(51u8);
    proof {
        assert(r@ =~= socket_text_spec(server@));
    }
    r
}

/// Selects the resolver plan for a configuration: the custom server when
/// its address parses as an IP, the system/default path otherwise —
/// including when the address is invalid, which is treated exactly like no
/// custom server being configured.
pub fn plan_resolver(config: &EnumConfig) -> (r: ResolverPlan)
    requires
        config.wf(),
    ensures
        r@ == plan_model(
            match config.dns_server {
                Some(s) => Some(s@),
                None => None,
            },
            config.timeout,
        ),
{
    match &config.dns_server {
        Some(server) => {
            let v4 = is_ipv4_bytes(server);
            if v4 || is_ip_bytes(server) {
                let socket_text = build_socket_text(server, v4);
                ResolverPlan::Custom { socket_text, timeout: config.timeout }
            } else {
                ResolverPlan::SystemDefault { timeout: config.timeout }
            }
        },
        None => ResolverPlan::SystemDefault { timeout: config.timeout },
    }
}

} // verus!
