//! Byte-string utilities: probe hostname construction, lexicographic order,
//! trailing-dot trimming and wordlist filtering.

use vstd::prelude::*;

verus! {

/// The probe hostname for a candidate word: `word + "." + domain`.
pub open spec fn fqdn(word: Seq<u8>, domain: Seq<u8>) -> Seq<u8> {
    word + seq![46u8] + domain
}

/// Builds the fully-qualified probe hostname `word + "." + domain`.
pub fn make_fqdn(word: &Vec<u8>, domain: &Vec<u8>) -> (r: Vec<u8>)
    requires
        word@.len() + 1 + domain@.len() <= usize::MAX,
    ensures
        r@ == fqdn(word@, domain@),
{
    let mut r: Vec<u8> = Vec::new();
    let mut i: usize = 0;
    while i < word.len()
        invariant
            i <= word@.len(),
            r@ == word@.take(i as int),
        decreases word@.len() - i,
    {
        r.push(word[i]);
        i = i + 1;
    }
    assert(r@ == word@);
    r.push(46u8);
    let mut j: usize = 0;
    while j < domain.len()
        invariant
            j <= domain@.len(),
            r@ == word@ + seq![46u8] + domain@.take(j as int),
        decreases domain@.len() - j,
    {
        r.push(domain[j]);
        proof {
            assert(r@ =~= word@ + seq![46u8] + domain@.take(j + 1));
        }
        j = j + 1;
    }
    proof {
        assert(r@ =~= fqdn(word@, domain@));
    }
    r
}

/// What remains of a name after trimming every trailing dot.
pub open spec fn trim_dots(s: Seq<u8>) -> Seq<u8>
    decreases s.len(),
{
    if s.len() > 0 && s.last() == 46 {
        trim_dots(s.drop_last())
    } else {
        s
    }
}

/// Trims every trailing dot from a name, as a reverse lookup's answer
/// carries one (`host.example.com.`).
pub fn trim_trailing_dots(s: &Vec<u8>) -> (r: Vec<u8>)
    ensures
        r@ == trim_dots(s@),
        r@.len() == 0 || r@.last() != 46,
{
    let mut end: usize = s.len();
    proof {
        assert(s@.take(end as int) =~= s@);
    }
    while end > 0 && s[end - 1] == 46
        invariant
            end <= s@.len(),
            trim_dots(s@) == trim_dots(s@.take(end as int)),
        decreases end,
    {
        proof {
            assert(s@.take(end as int).last() == s@[end - 1]);
            assert(s@.take(end as int).drop_last() =~= s@.take(end - 1));
        }
        end = end - 1;
    }
    let mut r: Vec<u8> = Vec::new();
    let mut i: usize = 0;
    while i < end
        invariant
            i <= end <= s@.len(),
            r@ == s@.take(end as int).take(i as int),
        decreases end - i,
    {
        r.push(s[i]);
        proof {
            assert(s@.take(end as int).take(i + 1) =~= s@.take(end as int).take(i as int).push(
                s@[i as int],
            ));
        }
        i = i + 1;
    }
    proof {
        assert(s@.take(end as int).take(end as int) =~= s@.take(end as int));
        assert(trim_dots(s@.take(end as int)) == s@.take(end as int));
    }
    r
}

/// A wordlist line is kept when it is non-empty and is not a comment
/// (a line starting with `#`).
pub open spec fn keep_word(w: Seq<u8>) -> bool {
    w.len() > 0 && w[0] != 35
}

/// Filters the raw wordlist lines down to the candidate words: blank lines
/// and `#`-comments are dropped, everything else is kept in order.
pub fn filter_wordlist(lines: Vec<Vec<u8>>) -> (r: Vec<Vec<u8>>)
    ensures
        r.deep_view() == lines.deep_view().filter(|w: Seq<u8>| keep_word(w)),
{
    let ghost orig = lines.deep_view();
    let ghost n: int = orig.len() as int;
    let ghost pred = |w: Seq<u8>| keep_word(w);
    let mut lines = lines;
    let mut out: Vec<Vec<u8>> = Vec::new();
    proof {
        assert(lines.deep_view() =~= orig.skip(0));
        assert(orig.take(0) =~= Seq::<Seq<u8>>::empty());
        vstd::seq::Seq::<Seq<u8>>::empty().filter_lemma(pred);
        assert(out.deep_view() =~= orig.take(0).filter(pred));
    }
    while lines.len() > 0
        invariant
            n == orig.len(),
            lines@.len() <= n,
            lines.deep_view() =~= orig.skip(n - lines@.len()),
            out.deep_view() == orig.take(n - lines@.len()).filter(|w: Seq<u8>| keep_word(w)),
        decreases lines@.len(),
    {
        let ghost i: int = n - lines@.len();
        let ghost prev = lines@;
        let ghost prevdv = lines.deep_view();
        let w = lines.remove(0);
        proof {
            assert(w.deep_view() == prevdv[0]);
            vstd::seq_lib::lemma_seq_skip_index::<Seq<u8>>(orig, i, 0);
            assert(w@ == orig[i]);
            assert(lines.deep_view() =~= orig.skip(i + 1)) by {
                assert forall|k: int| 0 <= k < lines@.len() implies lines.deep_view()[k] == orig.skip(
                    i + 1,
                )[k] by {
                    assert(lines@[k] == prev[k + 1]);
                    assert(lines.deep_view()[k] == lines@[k].deep_view());
                    assert(prevdv[k + 1] == prev[k + 1].deep_view());
                    vstd::seq_lib::lemma_seq_skip_index::<Seq<u8>>(orig, i, k + 1);
                    vstd::seq_lib::lemma_seq_skip_index::<Seq<u8>>(orig, i + 1, k);
                }
            };
        }
        let ghost before = out.deep_view();
        let keep = w.len() > 0 && w[0] != 35;
        if keep {
            out.push(w);
            proof {
                assert(out.deep_view() =~= before.push(orig[i])) by {
                    assert forall|k: int| 0 <= k < out@.len() implies out.deep_view()[k]
                        == before.push(orig[i])[k] by {
                        assert(out.deep_view()[k] == out@[k].deep_view());
                    }
                };
            }
        }
        proof {
            broadcast use vstd::seq::Seq::lemma_filter_push;

            assert(orig.take(i + 1) =~= orig.take(i).push(orig[i]));
            assert(orig.take(i).push(orig[i]).filter(|w: Seq<u8>| keep_word(w)) == (if keep_word(
                orig[i],
            ) {
                orig.take(i).filter(|w: Seq<u8>| keep_word(w)).push(orig[i])
            } else {
                orig.take(i).filter(|w: Seq<u8>| keep_word(w))
            }));
            assert(out.deep_view() =~= orig.take(i + 1).filter(|w: Seq<u8>| keep_word(w)));
        }
    }
    proof {
        assert(orig.take(n) =~= orig);
    }
    out
}

} // verus!
