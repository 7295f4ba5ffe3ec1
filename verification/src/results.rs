//! Discovered subdomains and the deterministic result pipeline: given the
//! per-candidate lookup outcomes, keep exactly the candidates whose lookup
//! returned a non-empty address list and sort the survivors by hostname in
//! ascending lexicographic byte order.

use vstd::prelude::*;
use vstd::seq_lib::lemma_multiset_commutative;
use vstd::multiset::Multiset;
use crate::text::fqdn;
use crate::text::make_fqdn;

verus! {

/// A discovered hostname together with the addresses it resolved to.
/// Only created for a successful, non-empty resolution.
pub struct SubdomainResult {
    /// The fully-qualified probe hostname, e.g. `www.example.com`.
    pub hostname: Vec<u8>,
    /// Textual forms of the resolved addresses; non-empty by construction.
    pub ips: Vec<Vec<u8>>,
}

/// The mathematical model of a discovered subdomain.
pub ghost struct ResModel {
    pub host: Seq<u8>,
    pub ips: Seq<Seq<u8>>,
}

impl View for SubdomainResult {
    type V = ResModel;

    open spec fn view(&self) -> ResModel {
        ResModel { host: self.hostname@, ips: self.ips.deep_view() }
    }
}

/// The models of a sequence of results.
pub open spec fn models(v: Seq<SubdomainResult>) -> Seq<ResModel> {
    v.map_values(|r: SubdomainResult| r@)
}

/// Lexicographic byte order: `a <= b`.
pub open spec fn lex_le(a: Seq<u8>, b: Seq<u8>) -> bool
    decreases a.len(),
{
    if a.len() == 0 {
        true
    } else if b.len() == 0 {
        false
    } else if a[0] < b[0] {
        true
    } else if a[0] > b[0] {
        false
    } else {
        lex_le(a.drop_first(), b.drop_first())
    }
}

/// Lexicographic order is total.
pub proof fn lemma_lex_le_total(a: Seq<u8>, b: Seq<u8>)
    ensures
        lex_le(a, b) || lex_le(b, a),
    decreases a.len(),
{
    if a.len() > 0 && b.len() > 0 && a[0] == b[0] {
        lemma_lex_le_total(a.drop_first(), b.drop_first());
    }
}

/// Dropping a common prefix does not change the order.
proof fn lemma_lex_le_skip(a: Seq<u8>, b: Seq<u8>, i: int)
    requires
        0 <= i <= a.len(),
        i <= b.len(),
        forall|k: int| 0 <= k < i ==> a[k] == b[k],
    ensures
        lex_le(a, b) == lex_le(a.skip(i), b.skip(i)),
    decreases i,
{
    if i > 0 {
        assert(a.len() > 0 && b.len() > 0 && a[0] == b[0]);
        assert(lex_le(a, b) == lex_le(a.drop_first(), b.drop_first()));
        lemma_lex_le_skip(a.drop_first(), b.drop_first(), i - 1);
        assert(a.drop_first().skip(i - 1) =~= a.skip(i));
        assert(b.drop_first().skip(i - 1) =~= b.skip(i));
    } else {
        assert(a.skip(0) =~= a);
        assert(b.skip(0) =~= b);
    }
}

/// Compares two byte strings in lexicographic order.
pub fn lex_le_bytes(a: &Vec<u8>, b: &Vec<u8>) -> (r: bool)
    ensures
        r == lex_le(a@, b@),
{
    let mut i: usize = 0;
    while i < a.len() && i < b.len()
        invariant
            i <= a@.len(),
            i <= b@.len(),
            forall|k: int| 0 <= k < i ==> a@[k] == b@[k],
        decreases a@.len() - i,
    {
        if a[i] < b[i] {
            proof {
                lemma_lex_le_skip(a@, b@, i as int);
            }
            return true;
        }
        if a[i] > b[i] {
            proof {
                lemma_lex_le_skip(a@, b@, i as int);
            }
            return false;
        }
        i = i + 1;
    }
    proof {
        lemma_lex_le_skip(a@, b@, i as int);
    }
    a.len() <= b.len()
}

/// The results are sorted by hostname, ascending.
pub open spec fn sorted_by_hostname(s: Seq<ResModel>) -> bool {
    forall|i: int| 0 <= i < s.len() - 1 ==> lex_le(#[trigger] s[i].host, s[i + 1].host)
}

/// Stable insertion of `x` into `s`: `x` goes after every element whose
/// hostname is less than or equal to its own.
pub open spec fn insert_sorted(x: ResModel, s: Seq<ResModel>) -> Seq<ResModel>
    decreases s.len(),
{
    if s.len() > 0 && lex_le(s[0].host, x.host) {
        seq![s[0]] + insert_sorted(x, s.drop_first())
    } else {
        seq![x] + s
    }
}

/// Stable insertion sort by hostname: the deterministic sorted form of a
/// result sequence.
pub open spec fn sort_model(s: Seq<ResModel>) -> Seq<ResModel>
    decreases s.len(),
{
    if s.len() == 0 {
        Seq::empty()
    } else {
        insert_sorted(s.last(), sort_model(s.drop_last()))
    }
}

/// Inserting adds exactly one element, as a multiset.
pub proof fn lemma_insert_sorted_multiset(x: ResModel, s: Seq<ResModel>)
    ensures
        insert_sorted(x, s).to_multiset() == s.to_multiset().insert(x),
        insert_sorted(x, s).len() == s.len() + 1,
    decreases s.len(),
{
    broadcast use vstd::seq_lib::group_to_multiset_ensures;

    if s.len() > 0 && lex_le(s[0].host, x.host) {
        lemma_insert_sorted_multiset(x, s.drop_first());
        let rest = insert_sorted(x, s.drop_first());
        lemma_multiset_commutative(seq![s[0]], rest);
        lemma_multiset_commutative(seq![s[0]], s.drop_first());
        assert(seq![s[0]] + s.drop_first() =~= s);
        assert(insert_sorted(x, s).to_multiset() =~= s.to_multiset().insert(x));
    } else {
        lemma_multiset_commutative(seq![x], s);
        assert(seq![x].to_multiset() =~= Multiset::empty().insert(x)) by {
            assert(seq![x] =~= Seq::empty().push(x));
        };
        assert(insert_sorted(x, s).to_multiset() =~= s.to_multiset().insert(x));
    }
}

/// Sorting preserves the elements exactly, as a multiset.
pub proof fn lemma_sort_model_multiset(s: Seq<ResModel>)
    ensures
        sort_model(s).to_multiset() == s.to_multiset(),
        sort_model(s).len() == s.len(),
    decreases s.len(),
{
    broadcast use vstd::seq_lib::group_to_multiset_ensures;

    if s.len() > 0 {
        lemma_sort_model_multiset(s.drop_last());
        lemma_insert_sorted_multiset(s.last(), sort_model(s.drop_last()));
        assert(s.drop_last().push(s.last()) =~= s);
        assert(sort_model(s).to_multiset() =~= s.to_multiset());
    }
}

/// Inserting into a sorted sequence keeps it sorted.
pub proof fn lemma_insert_sorted_sorted(x: ResModel, s: Seq<ResModel>)
    requires
        sorted_by_hostname(s),
    ensures
        sorted_by_hostname(insert_sorted(x, s)),
    decreases s.len(),
{
    if s.len() > 0 && lex_le(s[0].host, x.host) {
        assert(sorted_by_hostname(s.drop_first()));
        lemma_insert_sorted_sorted(x, s.drop_first());
        let rest = insert_sorted(x, s.drop_first());
        let r = seq![s[0]] + rest;
        assert forall|i: int| 0 <= i < r.len() - 1 implies lex_le(
            #[trigger] r[i].host,
            r[i + 1].host,
        ) by {
            if i == 0 {
                if s.len() == 1 {
                    assert(rest =~= seq![x]);
                } else if lex_le(s.drop_first()[0].host, x.host) {
                    assert(rest[0] == s.drop_first()[0]);
                    assert(lex_le(s[0].host, s[1].host));
                } else {
                    assert(rest[0] == x);
                }
            } else {
                assert(r[i] == rest[i - 1] && r[i + 1] == rest[i]);
            }
        };
    } else {
        let r = seq![x] + s;
        assert forall|i: int| 0 <= i < r.len() - 1 implies lex_le(
            #[trigger] r[i].host,
            r[i + 1].host,
        ) by {
            if i == 0 {
                lemma_lex_le_total(x.host, s[0].host);
            } else {
                assert(r[i] == s[i - 1] && r[i + 1] == s[i]);
                assert(lex_le(s[i - 1].host, s[i].host));
            }
        };
    }
}

/// The sorted form is sorted.
pub proof fn lemma_sort_model_sorted(s: Seq<ResModel>)
    ensures
        sorted_by_hostname(sort_model(s)),
    decreases s.len(),
{
    if s.len() > 0 {
        lemma_sort_model_sorted(s.drop_last());
        lemma_insert_sorted_sorted(s.last(), sort_model(s.drop_last()));
    }
}

/// Where the stable insertion lands: right after the longest prefix of
/// elements whose hostname is `<=` the new one.
proof fn lemma_insert_sorted_at(x: ResModel, s: Seq<ResModel>, p: int)
    requires
        0 <= p <= s.len(),
        forall|k: int| 0 <= k < p ==> lex_le(#[trigger] s[k].host, x.host),
        p < s.len() ==> !lex_le(s[p].host, x.host),
    ensures
        insert_sorted(x, s) == s.take(p) + seq![x] + s.skip(p),
    decreases s.len(),
{
    if p == 0 {
        assert(insert_sorted(x, s) =~= s.take(0) + seq![x] + s.skip(0));
    } else {
        assert(lex_le(s[0].host, x.host));
        let d = s.drop_first();
        lemma_insert_sorted_at(x, d, p - 1);
        assert(d.take(p - 1) =~= s.subrange(1, p));
        assert(d.skip(p - 1) =~= s.skip(p));
        assert(insert_sorted(x, s) =~= s.take(p) + seq![x] + s.skip(p));
    }
}

/// Finds the stable insertion position for `x` in `out`.
fn find_insert_pos(out: &Vec<SubdomainResult>, x: &SubdomainResult) -> (p: usize)
    ensures
        p <= out@.len(),
        forall|k: int| 0 <= k < p ==> lex_le((#[trigger] out@[k])@.host, x@.host),
        p < out@.len() ==> !lex_le(out@[p as int]@.host, x@.host),
{
    let mut p: usize = 0;
    while p < out.len()
        invariant
            p <= out@.len(),
            forall|k: int| 0 <= k < p ==> lex_le((#[trigger] out@[k])@.host, x@.host),
        decreases out@.len() - p,
    {
        if !lex_le_bytes(&out[p].hostname, &x.hostname) {
            return p;
        }
        p = p + 1;
    }
    p
}

/// Inserts one result into an already-sorted vector, stably.
fn insert_result(out: &mut Vec<SubdomainResult>, x: SubdomainResult)
    ensures
        models(final(out)@) == insert_sorted(x@, models(old(out)@)),
{
    let ghost ms = models(out@);
    let ghost xm = x@;
    let p = find_insert_pos(out, &x);
    proof {
        assert(forall|k: int| 0 <= k < p ==> lex_le((#[trigger] ms[k]).host, xm.host));
        lemma_insert_sorted_at(xm, ms, p as int);
    }
    out.insert(p, x);
    proof {
        assert(models(out@) =~= ms.take(p as int) + seq![xm] + ms.skip(p as int));
    }
}

/// Sorts the collected results by hostname, ascending; the stable insertion
/// sort makes the output a function of the input sequence alone.
pub fn sort_results(v: Vec<SubdomainResult>) -> (r: Vec<SubdomainResult>)
    ensures
        models(r@) == sort_model(models(v@)),
{
    let ghost orig = models(v@);
    let mut v = v;
    let mut out: Vec<SubdomainResult> = Vec::new();
    let ghost n: int = orig.len() as int;
    proof {
        assert(models(v@) =~= orig.skip(0));
        assert(orig.take(0).len() == 0);
        assert(models(out@) =~= sort_model(orig.take(0)));
    }
    while v.len() > 0
        invariant
            n == orig.len(),
            v@.len() <= n,
            models(v@) =~= orig.skip(n - v@.len()),
            models(out@) == sort_model(orig.take(n - v@.len())),
        decreases v@.len(),
    {
        let ghost i: int = n - v@.len();
        let ghost prev = v@;
        let x = v.remove(0);
        proof {
            assert(models(prev) == orig.skip(i));
            assert(x@ == models(prev)[0]);
            vstd::seq_lib::lemma_seq_skip_index::<ResModel>(orig, i, 0);
            assert(x@ == orig[i]);
            assert(models(v@) =~= orig.skip(i + 1)) by {
                assert forall|k: int| 0 <= k < v@.len() implies models(v@)[k] == orig.skip(i + 1)[
                    k
                ] by {
                    assert(v@[k] == prev[k + 1]);
                    assert(models(v@)[k] == v@[k]@);
                    assert(models(prev)[k + 1] == prev[k + 1]@);
                    vstd::seq_lib::lemma_seq_skip_index::<ResModel>(orig, i, k + 1);
                    vstd::seq_lib::lemma_seq_skip_index::<ResModel>(orig, i + 1, k);
                }
            };
        }
        insert_result(&mut out, x);
        proof {
            assert(orig.take(i + 1).drop_last() =~= orig.take(i));
            assert(orig.take(i + 1).last() == orig[i]);
            assert(models(out@) == insert_sorted(orig[i], sort_model(orig.take(i))));
            assert(models(out@) == sort_model(orig.take(i + 1)));
        }
    }
    proof {
        assert(orig.take(n as int) =~= orig);
    }
    out
}

/// A lookup outcome is live when the lookup succeeded with at least one
/// address: only such candidates become results.
pub open spec fn live_outcome(o: Option<Seq<Seq<u8>>>) -> bool {
    o is Some && o.unwrap().len() > 0
}

/// The result a live candidate contributes: its probe hostname with the
/// addresses its lookup returned.
pub open spec fn outcome_model(word: Seq<u8>, domain: Seq<u8>, o: Option<Seq<Seq<u8>>>) -> ResModel {
    ResModel { host: fqdn(word, domain), ips: o.unwrap() }
}

/// The unsorted results contributed by candidates `lo..hi`, in index order:
/// one entry per live outcome, none for the rest.
pub open spec fn collect_range(
    words: Seq<Seq<u8>>,
    domain: Seq<u8>,
    outs: Seq<Option<Seq<Seq<u8>>>>,
    lo: int,
    hi: int,
) -> Seq<ResModel>
    decreases hi - lo,
{
    if lo >= hi {
        Seq::empty()
    } else if live_outcome(outs[lo]) {
        seq![outcome_model(words[lo], domain, outs[lo])] + collect_range(
            words,
            domain,
            outs,
            lo + 1,
            hi,
        )
    } else {
        collect_range(words, domain, outs, lo + 1, hi)
    }
}

/// The full enumeration result for given per-candidate outcomes: the live
/// candidates' results, sorted by hostname ascending. A function of the
/// inputs alone.
pub open spec fn enumeration_model(
    words: Seq<Seq<u8>>,
    domain: Seq<u8>,
    outs: Seq<Option<Seq<Seq<u8>>>>,
) -> Seq<ResModel> {
    sort_model(collect_range(words, domain, outs, 0, words.len() as int))
}

/// Extending the range by one candidate appends that candidate's
/// contribution, if any.
pub proof fn lemma_collect_range_snoc(
    words: Seq<Seq<u8>>,
    domain: Seq<u8>,
    outs: Seq<Option<Seq<Seq<u8>>>>,
    lo: int,
    hi: int,
)
    requires
        lo <= hi,
    ensures
        collect_range(words, domain, outs, lo, hi + 1) == collect_range(words, domain, outs, lo, hi)
            + (if live_outcome(outs[hi]) {
            seq![outcome_model(words[hi], domain, outs[hi])]
        } else {
            Seq::<ResModel>::empty()
        }),
    decreases hi - lo,
{
    let tail = if live_outcome(outs[hi]) {
        seq![outcome_model(words[hi], domain, outs[hi])]
    } else {
        Seq::<ResModel>::empty()
    };
    if lo == hi {
        assert(collect_range(words, domain, outs, lo + 1, hi + 1) =~= Seq::<ResModel>::empty());
        assert(collect_range(words, domain, outs, lo, hi + 1) =~= collect_range(
            words,
            domain,
            outs,
            lo,
            hi,
        ) + tail);
    } else {
        lemma_collect_range_snoc(words, domain, outs, lo + 1, hi);
        assert(collect_range(words, domain, outs, lo, hi + 1) =~= collect_range(
            words,
            domain,
            outs,
            lo,
            hi,
        ) + tail);
    }
}

/// The contribution of a range depends only on the outcomes inside it.
pub proof fn lemma_collect_range_congruence(
    words: Seq<Seq<u8>>,
    domain: Seq<u8>,
    outs1: Seq<Option<Seq<Seq<u8>>>>,
    outs2: Seq<Option<Seq<Seq<u8>>>>,
    lo: int,
    hi: int,
)
    requires
        forall|k: int| lo <= k < hi ==> outs1[k] == outs2[k],
    ensures
        collect_range(words, domain, outs1, lo, hi) == collect_range(words, domain, outs2, lo, hi),
    decreases hi - lo,
{
    if lo < hi {
        lemma_collect_range_congruence(words, domain, outs1, outs2, lo + 1, hi);
    }
}

/// Ranges compose: `[lo, hi)` contributes what `[lo, mid)` and `[mid, hi)` do.
pub proof fn lemma_collect_range_split(
    words: Seq<Seq<u8>>,
    domain: Seq<u8>,
    outs: Seq<Option<Seq<Seq<u8>>>>,
    lo: int,
    mid: int,
    hi: int,
)
    requires
        lo <= mid <= hi,
    ensures
        collect_range(words, domain, outs, lo, hi) == collect_range(words, domain, outs, lo, mid)
            + collect_range(words, domain, outs, mid, hi),
    decreases mid - lo,
{
    if lo == mid {
        assert(collect_range(words, domain, outs, lo, hi) =~= collect_range(
            words,
            domain,
            outs,
            lo,
            mid,
        ) + collect_range(words, domain, outs, mid, hi));
    } else {
        lemma_collect_range_split(words, domain, outs, lo + 1, mid, hi);
        assert(collect_range(words, domain, outs, lo, hi) =~= collect_range(
            words,
            domain,
            outs,
            lo,
            mid,
        ) + collect_range(words, domain, outs, mid, hi));
    }
}

/// Holds when `m` is the contribution of some live candidate in `[lo, hi)`:
/// its probe hostname together with exactly the addresses its outcome held.
pub open spec fn from_live_candidate(
    words: Seq<Seq<u8>>,
    domain: Seq<u8>,
    outs: Seq<Option<Seq<Seq<u8>>>>,
    lo: int,
    hi: int,
    m: ResModel,
) -> bool {
    exists|j: int|
        lo <= j < hi && live_outcome(#[trigger] outs[j]) && m == outcome_model(
            words[j],
            domain,
            outs[j],
        )
}

/// The collected results are exactly the live candidates' contributions:
/// every live candidate's result appears, and nothing else does.
pub proof fn lemma_collect_range_members(
    words: Seq<Seq<u8>>,
    domain: Seq<u8>,
    outs: Seq<Option<Seq<Seq<u8>>>>,
    lo: int,
    hi: int,
)
    requires
        lo <= hi,
    ensures
        forall|j: int|
            lo <= j < hi && live_outcome(#[trigger] outs[j]) ==> collect_range(
                words,
                domain,
                outs,
                lo,
                hi,
            ).contains(outcome_model(words[j], domain, outs[j])),
        forall|k: int|
            #![trigger collect_range(words, domain, outs, lo, hi)[k]]
            0 <= k < collect_range(words, domain, outs, lo, hi).len() ==> from_live_candidate(
                words,
                domain,
                outs,
                lo,
                hi,
                collect_range(words, domain, outs, lo, hi)[k],
            ),
    decreases hi - lo,
{
    if lo < hi {
        lemma_collect_range_members(words, domain, outs, lo + 1, hi);
        let whole = collect_range(words, domain, outs, lo, hi);
        let rest = collect_range(words, domain, outs, lo + 1, hi);
        let off: int = if live_outcome(outs[lo]) {
            1
        } else {
            0
        };
        assert(whole.len() == rest.len() + off);
        assert(forall|k: int| 0 <= k < rest.len() ==> whole[k + off] == rest[k]);
        assert forall|j: int|
            lo <= j < hi && live_outcome(#[trigger] outs[j]) implies whole.contains(
            outcome_model(words[j], domain, outs[j]),
        ) by {
            if j == lo {
                assert(whole[0] == outcome_model(words[lo], domain, outs[lo]));
            } else {
                let m = outcome_model(words[j], domain, outs[j]);
                assert(rest.contains(m));
                let k = choose|k: int| 0 <= k < rest.len() && rest[k] == m;
                assert(whole[k + off] == m);
            }
        };
        assert forall|k: int|
            #![trigger collect_range(words, domain, outs, lo, hi)[k]]
            0 <= k < whole.len() implies from_live_candidate(
            words,
            domain,
            outs,
            lo,
            hi,
            whole[k],
        ) by {
            if off == 1 && k == 0 {
                assert(live_outcome(outs[lo]) && whole[0] == outcome_model(
                    words[lo],
                    domain,
                    outs[lo],
                ));
            } else {
                assert(whole[k] == rest[k - off]);
                assert(from_live_candidate(words, domain, outs, lo + 1, hi, rest[k - off]));
                let j = choose|j: int|
                    lo + 1 <= j < hi && live_outcome(#[trigger] outs[j]) && rest[k - off]
                        == outcome_model(words[j], domain, outs[j]);
                assert(lo <= j < hi && live_outcome(outs[j]) && whole[k] == outcome_model(
                    words[j],
                    domain,
                    outs[j],
                ));
            }
        };
    }
}

/// Keeps a candidate exactly when its lookup outcome is live, and then
/// carries the probe hostname and the returned addresses unchanged.
pub fn process_candidate(hostname: Vec<u8>, outcome: Option<Vec<Vec<u8>>>) -> (r: Option<
    SubdomainResult,
>)
    ensures
        live_outcome(outcome.deep_view()) ==> r is Some && r.unwrap()@ == (ResModel {
            host: hostname@,
            ips: outcome.deep_view().unwrap(),
        }),
        !live_outcome(outcome.deep_view()) ==> (r is None),
{
    match outcome {
        Some(ips) => {
            if ips.len() > 0 {
                Some(SubdomainResult { hostname, ips })
            } else {
                None
            }
        },
        None => None,
    }
}

/// The whole deterministic tail of an enumeration run, with the lookup
/// outcomes as data: builds each probe hostname, keeps the candidates whose
/// outcome is live, and returns them sorted by hostname ascending. Feeding
/// it the outcomes a resolver stub would give reproduces exactly what the
/// enumeration returns with that stub.
pub fn collect_results(
    words: &Vec<Vec<u8>>,
    domain: &Vec<u8>,
    outcomes: Vec<Option<Vec<Vec<u8>>>>,
) -> (r: Vec<SubdomainResult>)
    requires
        outcomes@.len() == words@.len(),
        forall|j: int|
            0 <= j < words@.len() ==> (#[trigger] words@[j])@.len() + 1 + domain@.len()
                <= usize::MAX,
    ensures
        models(r@) == enumeration_model(words.deep_view(), domain@, outcomes.deep_view()),
        sorted_by_hostname(models(r@)),
{
    let ghost w = words.deep_view();
    let ghost d = domain@;
    let ghost os = outcomes.deep_view();
    let ghost n: int = w.len() as int;
    let mut outcomes = outcomes;
    let mut collected: Vec<SubdomainResult> = Vec::new();
    let mut j: usize = 0;
    proof {
        assert(outcomes.deep_view() =~= os.skip(0));
        assert(models(collected@) =~= collect_range(w, d, os, 0, 0));
    }
    while j < words.len()
        invariant
            n == w.len(),
            w == words.deep_view(),
            d == domain@,
            os.len() == n,
            j <= n,
            forall|jj: int| 0 <= jj < n ==> (#[trigger] w[jj]).len() + 1 + d.len() <= usize::MAX,
            outcomes@.len() == n - j,
            outcomes.deep_view() =~= os.skip(j as int),
            models(collected@) == collect_range(w, d, os, 0, j as int),
        decreases n - j,
    {
        let ghost ji: int = j as int;
        let ghost prev = outcomes@;
        let ghost prevdv = outcomes.deep_view();
        proof {
            assert(words.deep_view()[ji] == words@[ji].deep_view());
            assert(words@[ji]@.len() + 1 + domain@.len() <= usize::MAX);
            assert(prevdv.len() == outcomes@.len());
            assert(prevdv[0] == outcomes@[0].deep_view());
        }
        let host = make_fqdn(&words[j], domain);
        let o = outcomes.remove(0);
        proof {
            assert(o.deep_view() == prevdv[0]);
            vstd::seq_lib::lemma_seq_skip_index::<Option<Seq<Seq<u8>>>>(os, ji, 0);
            assert(o.deep_view() == os[ji]);
            assert(outcomes.deep_view() =~= os.skip(ji + 1)) by {
                assert forall|k: int| 0 <= k < outcomes@.len() implies outcomes.deep_view()[k]
                    == os.skip(ji + 1)[k] by {
                    assert(outcomes@[k] == prev[k + 1]);
                    assert(outcomes.deep_view()[k] == outcomes@[k].deep_view());
                    assert(prevdv[k + 1] == prev[k + 1].deep_view());
                    vstd::seq_lib::lemma_seq_skip_index::<Option<Seq<Seq<u8>>>>(os, ji, k + 1);
                    vstd::seq_lib::lemma_seq_skip_index::<Option<Seq<Seq<u8>>>>(os, ji + 1, k);
                }
            };
            assert(w[ji] == words@[ji]@);
        }
        let ghost before = collected@;
        match process_candidate(host, o) {
            Some(sr) => {
                proof {
                    assert(sr@ == outcome_model(w[ji], d, os[ji]));
                }
                collected.push(sr);
                proof {
                    broadcast use vstd::seq::Seq::lemma_push_map_commute;

                    assert(models(collected@) =~= models(before) + seq![sr@]);
                }
            },
            None => {},
        }
        proof {
            lemma_collect_range_snoc(w, d, os, 0, ji);
            assert(models(collected@) =~= collect_range(w, d, os, 0, ji + 1));
        }
        j = j + 1;
    }
    let r = sort_results(collected);
    proof {
        assert(models(r@) == enumeration_model(w, d, os));
        lemma_sort_model_sorted(collect_range(w, d, os, 0, n));
    }
    r
}

/// The enumeration result is a function of the candidate words, the domain
/// and the per-candidate outcomes alone: two runs over the same inputs and
/// the same outcomes return the same sequence, whatever order the work was
/// done in.
pub proof fn lemma_enumeration_deterministic(
    words: Seq<Seq<u8>>,
    domain: Seq<u8>,
    outs: Seq<Option<Seq<Seq<u8>>>>,
    r1: Seq<ResModel>,
    r2: Seq<ResModel>,
)
    requires
        r1 == enumeration_model(words, domain, outs),
        r2 == enumeration_model(words, domain, outs),
    ensures
        r1 == r2,
{
}

/// Every entry of the sorted enumeration result is the contribution of
/// some live candidate: its probe hostname together with the non-empty
/// address list its lookup returned.
pub proof fn lemma_enumeration_entries(
    words: Seq<Seq<u8>>,
    domain: Seq<u8>,
    outs: Seq<Option<Seq<Seq<u8>>>>,
)
    requires
        outs.len() == words.len(),
    ensures
        forall|k: int|
            #![trigger enumeration_model(words, domain, outs)[k]]
            0 <= k < enumeration_model(words, domain, outs).len() ==> from_live_candidate(
                words,
                domain,
                outs,
                0,
                words.len() as int,
                enumeration_model(words, domain, outs)[k],
            ),
{
    broadcast use vstd::seq_lib::group_to_multiset_ensures;

    let n = words.len() as int;
    let un = collect_range(words, domain, outs, 0, n);
    let so = enumeration_model(words, domain, outs);
    lemma_sort_model_multiset(un);
    lemma_collect_range_members(words, domain, outs, 0, n);
    assert forall|k: int|
        #![trigger enumeration_model(words, domain, outs)[k]]
        0 <= k < so.len() implies from_live_candidate(words, domain, outs, 0, n, so[k]) by {
        let x = so[k];
        assert(so.contains(x));
        assert(so.to_multiset().count(x) > 0);
        assert(un.to_multiset().count(x) > 0);
        assert(un.contains(x));
        let kk = choose|kk: int| 0 <= kk < un.len() && un[kk] == x;
        assert(from_live_candidate(words, domain, outs, 0, n, un[kk]));
    };
}

/// For a stub resolver that resolves exactly a fixed subset of the
/// candidates, the enumeration result holds exactly those candidates'
/// fully-qualified hostnames with their addresses, sorted ascending.
pub proof fn lemma_enumeration_matches_stub(
    words: Seq<Seq<u8>>,
    domain: Seq<u8>,
    outs: Seq<Option<Seq<Seq<u8>>>>,
)
    requires
        outs.len() == words.len(),
    ensures
        sorted_by_hostname(enumeration_model(words, domain, outs)),
        enumeration_model(words, domain, outs).to_multiset() == collect_range(
            words,
            domain,
            outs,
            0,
            words.len() as int,
        ).to_multiset(),
        enumeration_model(words, domain, outs).len() == collect_range(
            words,
            domain,
            outs,
            0,
            words.len() as int,
        ).len(),
        forall|j: int|
            0 <= j < words.len() && live_outcome(#[trigger] outs[j]) ==> collect_range(
                words,
                domain,
                outs,
                0,
                words.len() as int,
            ).contains(outcome_model(words[j], domain, outs[j])),
        forall|k: int|
            #![trigger collect_range(words, domain, outs, 0, words.len() as int)[k]]
            0 <= k < collect_range(words, domain, outs, 0, words.len() as int).len()
                ==> from_live_candidate(
                words,
                domain,
                outs,
                0,
                words.len() as int,
                collect_range(words, domain, outs, 0, words.len() as int)[k],
            ),
{
    let unsorted = collect_range(words, domain, outs, 0, words.len() as int);
    lemma_sort_model_sorted(unsorted);
    lemma_sort_model_multiset(unsorted);
    lemma_collect_range_members(words, domain, outs, 0, words.len() as int);
}

} // verus!
