//! The enumeration engine: per-worker resolver construction, the worker
//! loop over one partition, progress counting, and the top-level run. Every
//! decision is verified; the DNS calls and the notification writes stand
//! behind trusted wrappers around `trust_dns_resolver` and std I/O.

use vstd::prelude::*;
use std::io::Write;
use trust_dns_resolver::Resolver;
use crate::config::DNS_ATTEMPTS;
use crate::config::EnumConfig;
use crate::config::ResolverPlan;
use crate::config::plan_resolver;
use crate::partition::Partition;
use crate::partition::partitions;
use crate::partition::lemma_partitions_cover;
use crate::results::SubdomainResult;
use crate::results::collect_range;
use crate::results::enumeration_model;
use crate::results::lemma_collect_range_congruence;
use crate::results::lemma_collect_range_snoc;
use crate::results::lemma_collect_range_split;
use crate::results::models;
use crate::results::outcome_model;
use crate::results::process_candidate;
use crate::results::sort_results;
use crate::text::make_fqdn;

verus! {

#[verifier::external_type_specification]
#[verifier::external_body]
pub struct ExResolver(Resolver);

/// Relies on `trust_dns_resolver::Resolver::new` with one custom name
/// server queried over UDP on the socket address the text names, the given
/// timeout and attempts, and negative responses trusted. Returns `None`
/// when the text is not a socket address or the resolver cannot be built.
#[verifier::external_body]
fn resolver_from_custom(socket_text: &Vec<u8>, timeout_secs: u64, attempts: usize) -> (r: Option<
    Resolver,
>) {
    let text = String::from_utf8_lossy(socket_text.as_slice()).into_owned();
    let socket_addr = match text.parse() { Ok(sa) => sa, Err(_) => return None };
    let name_server = trust_dns_resolver::config::NameServerConfig {
        socket_addr,
        protocol: trust_dns_resolver::config::Protocol::Udp,
        tls_dns_name: None,
        trust_negative_responses: true,
        bind_addr: None,
    };
    let mut resolver_config = trust_dns_resolver::config::ResolverConfig::new();
    resolver_config.add_name_server(name_server);
    let mut opts = trust_dns_resolver::config::ResolverOpts::default();
    opts.timeout = core::time::Duration::from_secs(timeout_secs);
    opts.attempts = attempts;
    trust_dns_resolver::Resolver::new(resolver_config, opts).ok()
}

/// Relies on `trust_dns_resolver::Resolver::from_system_conf`, and on
/// `Resolver::new` with the built-in default servers, the given timeout and
/// attempts, when the system configuration is unavailable. A system
/// resolver keeps its own timeout and attempts: they cannot be overridden
/// here, a known limitation.
#[verifier::external_body]
fn resolver_from_system_or_default(timeout_secs: u64, attempts: usize) -> (r: Option<Resolver>) {
    match trust_dns_resolver::Resolver::from_system_conf() {
        Ok(r) => Some(r),
        Err(_) => {
            let mut opts = trust_dns_resolver::config::ResolverOpts::default();
            opts.timeout = core::time::Duration::from_secs(timeout_secs);
            opts.attempts = attempts;
            trust_dns_resolver::Resolver::new(
                trust_dns_resolver::config::ResolverConfig::default(),
                opts,
            ).ok()
        },
    }
}

/// Relies on `trust_dns_resolver::Resolver::lookup_ip`: a forward A/AAAA
/// lookup of the hostname. `Some` holds the textual forms of the returned
/// addresses; `None` stands for every failure alike. What comes back
/// depends on the network, so nothing is promised of it.
#[verifier::external_body]
fn lookup_host_ips(resolver: &Resolver, hostname: &Vec<u8>) -> (r: Option<Vec<Vec<u8>>>) {
    let host = String::from_utf8_lossy(hostname.as_slice()).into_owned();
    match resolver.lookup_ip(host.as_str()) {
        Ok(response) => Some(response.iter().map(|ip| ip.to_string().into_bytes()).collect()),
        Err(_) => None,
    }
}

/// Relies on std::io::Stdout writes: the immediate discovery notification,
/// one line per successful resolution.
#[verifier::external_body]
fn emit_discovery(hostname: &Vec<u8>, ips: &Vec<Vec<u8>>) {
    let host = String::from_utf8_lossy(hostname.as_slice()).into_owned();
    let list: Vec<String> = ips.iter().map(
        |ip| String::from_utf8_lossy(ip.as_slice()).into_owned(),
    ).collect();
    let _ = writeln!(std::io::stdout(), "[+] {} -> {}", host, list.join(", "));
}

/// Relies on std::io::Stdout writes: the progress line, rewritten in place.
#[verifier::external_body]
fn emit_progress(processed: usize, total: usize) {
    let mut out = std::io::stdout();
    let _ = write!(out, "\r[*] Progress: {}/{}", processed, total);
    let _ = out.flush();
}

/// The shared progress counter: bumped once per processed candidate; every
/// hundredth candidate asks for a progress line.
pub struct ProgressCounter {
    /// Candidates processed so far.
    pub count: usize,
    /// Total candidates of the run.
    pub total: usize,
}

impl ProgressCounter {
    /// The counter never runs past the total.
    pub open spec fn wf(&self) -> bool {
        self.count <= self.total
    }

    /// A fresh counter for a run over `total` candidates.
    pub fn new(total: usize) -> (r: ProgressCounter)
        ensures
            r.count == 0,
            r.total == total,
            r.wf(),
    {
        ProgressCounter { count: 0, total }
    }

    /// Records one processed candidate; asks for a progress line exactly
    /// when the new count is a multiple of 100.
    pub fn increment(&mut self) -> (emit: bool)
        requires
            old(self).count < old(self).total,
        ensures
            final(self).count == old(self).count + 1,
            final(self).total == old(self).total,
            final(self).wf(),
            emit == (final(self).count % 100 == 0),
    {
        self.count = self.count + 1;
        self.count % 100 == 0
    }
}

/// Builds the resolver a worker uses, by the plan the configuration
/// selects: a valid custom server address is queried directly; otherwise
/// the system configuration, with the built-in defaults as fallback. When
/// the system resolver is taken, the configured timeout cannot be applied
/// to it — it runs with whatever the system configuration says, a known,
/// accepted limitation. Returns `None` only when no resolver could be
/// built at all; that failure is for the caller to surface, never to
/// swallow.
pub fn create_resolver(config: &EnumConfig) -> (r: Option<Resolver>)
    requires
        config.wf(),
{
    match plan_resolver(config) {
        ResolverPlan::Custom { socket_text, timeout } => resolver_from_custom(
            &socket_text,
            timeout,
            DNS_ATTEMPTS,
        ),
        ResolverPlan::SystemDefault { timeout } => resolver_from_system_or_default(
            timeout,
            DNS_ATTEMPTS,
        ),
    }
}

/// Runs one worker's partition: every candidate in `[part.start, part.end)`
/// in index order is probed as `word + "." + domain`; a successful lookup
/// with addresses becomes a result and an immediate discovery notification;
/// every candidate, hit or miss, bumps the shared counter once, with a
/// progress line at every hundredth. The returned results are exactly the
/// live candidates' contributions for some assignment of lookup outcomes
/// over this partition.
pub fn run_partition(
    resolver: &Resolver,
    words: &Vec<Vec<u8>>,
    domain: &Vec<u8>,
    part: Partition,
    progress: &mut ProgressCounter,
) -> (r: Vec<SubdomainResult>)
    requires
        part.start <= part.end <= words@.len(),
        forall|j: int|
            0 <= j < words@.len() ==> (#[trigger] words@[j])@.len() + 1 + domain@.len()
                <= usize::MAX,
        old(progress).wf(),
        old(progress).count + (part.end - part.start) <= old(progress).total,
    ensures
        final(progress).total == old(progress).total,
        final(progress).count == old(progress).count + (part.end - part.start),
        final(progress).wf(),
        exists|outs: Seq<Option<Seq<Seq<u8>>>>|
            outs.len() == words@.len() && models(r@) == collect_range(
                words.deep_view(),
                domain@,
                outs,
                part.start as int,
                part.end as int,
            ),
{
    let ghost w = words.deep_view();
    let ghost d = domain@;
    let ghost n: int = w.len() as int;
    let ghost mut outs: Seq<Option<Seq<Seq<u8>>>> = Seq::new(w.len(), |i: int| None);
    let mut out: Vec<SubdomainResult> = Vec::new();
    let mut j: usize = part.start;
    proof {
        assert(models(out@) =~= collect_range(w, d, outs, part.start as int, part.start as int));
    }
    while j < part.end
        invariant
            part.start <= j <= part.end <= words@.len(),
            n == w.len(),
            w == words.deep_view(),
            d == domain@,
            outs.len() == n,
            forall|jj: int| 0 <= jj < n ==> (#[trigger] w[jj]).len() + 1 + d.len() <= usize::MAX,
            models(out@) == collect_range(w, d, outs, part.start as int, j as int),
            progress.wf(),
            progress.total == old(progress).total,
            progress.count == old(progress).count + (j - part.start),
            old(progress).count + (part.end - part.start) <= old(progress).total,
        decreases part.end - j,
    {
        let ghost ji: int = j as int;
        proof {
            assert(w[ji] == words@[ji]@);
        }
        let host = make_fqdn(&words[j], domain);
        let outcome = lookup_host_ips(resolver, &host);
        let ghost odv = outcome.deep_view();
        let ghost prev_outs = outs;
        proof {
            outs = outs.update(ji, odv);
            lemma_collect_range_congruence(w, d, prev_outs, outs, part.start as int, ji);
            assert(models(out@) == collect_range(w, d, outs, part.start as int, ji));
        }
        let ghost before = out@;
        match process_candidate(host, outcome) {
            Some(sr) => {
                proof {
                    assert(sr@ == outcome_model(w[ji], d, outs[ji]));
                }
                emit_discovery(&sr.hostname, &sr.ips);
                out.push(sr);
                proof {
                    broadcast use vstd::seq::Seq::lemma_push_map_commute;

                    assert(models(out@) =~= models(before) + seq![outcome_model(
                        w[ji],
                        d,
                        outs[ji],
                    )]);
                }
            },
            None => {},
        }
        proof {
            lemma_collect_range_snoc(w, d, outs, part.start as int, ji);
            assert(models(out@) =~= collect_range(w, d, outs, part.start as int, ji + 1));
        }
        let emit = progress.increment();
        if emit {
            emit_progress(progress.count, progress.total);
        }
        j = j + 1;
    }
    proof {
        assert(models(out@) == collect_range(w, d, outs, part.start as int, part.end as int));
    }
    out
}

/// Why an enumeration run could not proceed.
#[derive(Debug)]
pub enum EnumError {
    /// No usable resolver could be built for a worker: neither the custom
    /// server, nor the system configuration, nor the built-in defaults.
    ResolverUnavailable,
}

impl EnumError {
    /// A short description of the failure.
    pub fn message(&self) -> (r: &'static str)
        ensures
            r@ == "no usable DNS resolver could be built"@,
    {
        "no usable DNS resolver could be built"
    }
}

/// The synchronous entry point: partitions the candidates, gives every
/// partition its own resolver, probes every candidate exactly once, and
/// returns the discovered subdomains sorted by hostname ascending. The
/// result is exactly the enumeration model over some assignment of lookup
/// outcomes, one per candidate; with no candidates it is owed to be empty.
/// Fails only when a worker's resolver could not be built at all, before
/// that worker's partition is probed.
pub fn enumerate(domain: &Vec<u8>, words: &Vec<Vec<u8>>, config: &EnumConfig) -> (r: Result<
    Vec<SubdomainResult>,
    EnumError,
>)
    requires
        config.wf(),
        forall|j: int|
            0 <= j < words@.len() ==> (#[trigger] words@[j])@.len() + 1 + domain@.len()
                <= usize::MAX,
    ensures
        words@.len() == 0 ==> (r matches Ok(v) && v@.len() == 0),
        r matches Ok(v) ==> exists|outs: Seq<Option<Seq<Seq<u8>>>>|
            outs.len() == words@.len() && models(v@) == enumeration_model(
                words.deep_view(),
                domain@,
                outs,
            ),
        r matches Ok(v) ==> crate::results::sorted_by_hostname(models(v@)),
        r matches Ok(v) ==> forall|k: int|
            #![trigger v@[k]]
            0 <= k < v@.len() ==> v@[k]@.ips.len() > 0 && exists|j: int|
                0 <= j < words@.len() && v@[k]@.host == crate::text::fqdn(
                    #[trigger] words.deep_view()[j],
                    domain@,
                ),
{
    let ghost w = words.deep_view();
    let ghost d = domain@;
    let ghost n: int = w.len() as int;
    let total = words.len();
    let parts = partitions(total, config.threads);
    proof {
        lemma_partitions_cover(parts@, n, config.threads as int);
    }
    let mut progress = ProgressCounter::new(total);
    let mut all: Vec<SubdomainResult> = Vec::new();
    let ghost mut outs: Seq<Option<Seq<Seq<u8>>>> = Seq::new(w.len(), |i: int| None);
    let mut i: usize = 0;
    proof {
        assert(models(all@) =~= collect_range(w, d, outs, 0, 0));
    }
    while i < parts.len()
        invariant
            i <= parts@.len(),
            n == w.len(),
            w == words.deep_view(),
            d == domain@,
            config.wf(),
            total == words@.len(),
            forall|jj: int| 0 <= jj < n ==> (#[trigger] w[jj]).len() + 1 + d.len() <= usize::MAX,
            outs.len() == n,
            forall|k: int| 0 <= k < parts@.len() ==> (#[trigger] parts@[k]).start < parts@[k].end <= n,
            forall|k: int|
                0 <= k < parts@.len() - 1 ==> (#[trigger] parts@[k]).end == parts@[k + 1].start,
            parts@.len() > 0 ==> parts@[0].start == 0,
            parts@.len() > 0 ==> parts@[parts@.len() - 1].end == n,
            models(all@) == collect_range(
                w,
                d,
                outs,
                0,
                if i == 0 {
                    0int
                } else {
                    parts@[i - 1].end as int
                },
            ),
            progress.total == total,
            progress.count == (if i == 0 {
                0int
            } else {
                parts@[i - 1].end as int
            }),
        decreases parts@.len() - i,
    {
        let p = parts[i];
        let ghost cov: int = if i == 0 {
            0int
        } else {
            parts@[i - 1].end as int
        };
        proof {
            assert(p.start == cov);
        }
        let resolver = match create_resolver(config) {
            Some(res) => res,
            None => {
                return Err(EnumError::ResolverUnavailable);
            },
        };
        proof {
            assert forall|jj: int| 0 <= jj < words@.len() implies (#[trigger] words@[jj])@.len() + 1
                + domain@.len() <= usize::MAX by {
                assert(w[jj] == words@[jj]@);
            }
        }
        let part_results = run_partition(&resolver, words, domain, p, &mut progress);
        proof {
            let pouts = choose|pouts: Seq<Option<Seq<Seq<u8>>>>|
                pouts.len() == words@.len() && models(part_results@) == collect_range(
                    w,
                    d,
                    pouts,
                    p.start as int,
                    p.end as int,
                );
            let prev_outs = outs;
            outs = Seq::new(
                w.len(),
                |t: int|
                    if p.start <= t < p.end {
                        pouts[t]
                    } else {
                        prev_outs[t]
                    },
            );
            lemma_collect_range_congruence(w, d, prev_outs, outs, 0, p.start as int);
            lemma_collect_range_congruence(w, d, pouts, outs, p.start as int, p.end as int);
            lemma_collect_range_split(w, d, outs, 0, p.start as int, p.end as int);
        }
        let ghost before = all@;
        let ghost pr = part_results@;
        let mut part_results = part_results;
        all.append(&mut part_results);
        proof {
            assert(models(all@) =~= models(before) + models(pr)) by {
                assert forall|t: int| 0 <= t < all@.len() implies models(all@)[t] == (models(before)
                    + models(pr))[t] by {
                    assert(models(all@)[t] == all@[t]@);
                    if t < before.len() {
                        assert(all@[t] == before[t]);
                    } else {
                        assert(all@[t] == pr[t - before.len()]);
                    }
                }
            };
            assert(models(all@) == collect_range(w, d, outs, 0, p.end as int));
        }
        i = i + 1;
    }
    proof {
        if parts@.len() == 0 {
            assert(n == 0);
            assert(models(all@) =~= collect_range(w, d, outs, 0, n));
        }
        assert(models(all@) == collect_range(w, d, outs, 0, n));
    }
    proof {
        // The counter ends at exactly the number of candidates: the
        // partitions' sizes sum to the whole candidate list.
        assert(progress.count == n);
    }
    emit_progress(progress.count, progress.total);
    let sorted = sort_results(all);
    proof {
        assert(models(sorted@) == enumeration_model(w, d, outs));
        crate::results::lemma_sort_model_sorted(collect_range(w, d, outs, 0, n));
        crate::results::lemma_enumeration_entries(w, d, outs);
        assert forall|k: int| #![trigger sorted@[k]] 0 <= k < sorted@.len() implies sorted@[k]@.ips.len()
            > 0 && exists|j: int|
            0 <= j < words@.len() && sorted@[k]@.host == crate::text::fqdn(
                #[trigger] words.deep_view()[j],
                domain@,
            ) by {
            assert(models(sorted@)[k] == sorted@[k]@);
            assert(crate::results::from_live_candidate(
                w,
                d,
                outs,
                0,
                n,
                enumeration_model(w, d, outs)[k],
            ));
            let j = choose|j: int|
                0 <= j < n && crate::results::live_outcome(#[trigger] outs[j]) && sorted@[k]@
                    == crate::results::outcome_model(w[j], d, outs[j]);
            assert(sorted@[k]@.host == crate::text::fqdn(words.deep_view()[j], d));
        };
        if n == 0 {
            assert(collect_range(w, d, outs, 0, 0).len() == 0);
            assert(models(sorted@).len() == 0);
            assert(sorted@.len() == models(sorted@).len());
        }
    }
    Ok(sorted)
}

} // verus!
