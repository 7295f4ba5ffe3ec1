//! Textual IP-address validation, over bytes. A custom DNS server is only
//! honoured when its address text is a valid IPv4 or IPv6 address; anything
//! else falls back to the system or default resolver path. The grammar
//! follows the usual textual forms: dotted-quad IPv4 (decimal octets up to
//! 255, no leading zeros), and IPv6 as colon-separated hexadecimal groups
//! with at most one `::` compression and an optional embedded IPv4 tail.

use vstd::prelude::*;

verus! {

pub open spec fn is_dec_digit(c: u8) -> bool {
    48 <= c <= 57
}

pub open spec fn is_hex_digit(c: u8) -> bool {
    is_dec_digit(c) || (97 <= c <= 102) || (65 <= c <= 70)
}

/// The decimal value of a digit string.
pub open spec fn dec_value(s: Seq<u8>) -> int
    decreases s.len(),
{
    if s.len() == 0 {
        0
    } else {
        dec_value(s.drop_last()) * 10 + (s.last() - 48)
    }
}

/// One IPv4 octet: one to three decimal digits, no leading zero, at most 255.
pub open spec fn is_ipv4_octet(s: Seq<u8>) -> bool {
    &&& 1 <= s.len() <= 3
    &&& forall|i: int| 0 <= i < s.len() ==> is_dec_digit(#[trigger] s[i])
    &&& s.len() > 1 ==> s[0] != 48
    &&& dec_value(s) <= 255
}

/// One IPv6 group: one to four hexadecimal digits.
pub open spec fn is_hex_quibble(s: Seq<u8>) -> bool {
    &&& 1 <= s.len() <= 4
    &&& forall|i: int| 0 <= i < s.len() ==> is_hex_digit(#[trigger] s[i])
}

/// Splitting a byte string at a separator: the pieces between separators,
/// in order, empty pieces included. A string without the separator is one
/// piece; every separator adds one piece.
pub open spec fn split_spec(s: Seq<u8>, sep: u8) -> Seq<Seq<u8>>
    decreases s.len(),
{
    if s.len() == 0 {
        seq![Seq::<u8>::empty()]
    } else if s[0] == sep {
        seq![Seq::<u8>::empty()] + split_spec(s.drop_first(), sep)
    } else {
        let rest = split_spec(s.drop_first(), sep);
        rest.update(0, seq![s[0]] + rest[0])
    }
}

/// A split always yields at least one piece, and at most one more piece
/// than the string has bytes.
pub proof fn lemma_split_len(s: Seq<u8>, sep: u8)
    ensures
        1 <= split_spec(s, sep).len() <= s.len() + 1,
    decreases s.len(),
{
    if s.len() > 0 {
        lemma_split_len(s.drop_first(), sep);
    }
}

/// Peeling the first piece: if the first `k` bytes hold no separator and
/// position `k` is a separator (or the end), the split is that prefix
/// followed by the split of what comes after the separator.
proof fn lemma_split_peel(s: Seq<u8>, sep: u8, k: int)
    requires
        0 <= k <= s.len(),
        forall|i: int| 0 <= i < k ==> s[i] != sep,
        k == s.len() || s[k] == sep,
    ensures
        k == s.len() ==> split_spec(s, sep) == seq![s],
        k < s.len() ==> split_spec(s, sep) == seq![s.take(k)] + split_spec(s.skip(k + 1), sep),
    decreases k,
{
    lemma_split_len(s, sep);
    if k == 0 {
        if s.len() == 0 {
            assert(s =~= Seq::<u8>::empty());
            assert(split_spec(s, sep) == seq![Seq::<u8>::empty()]);
            assert(split_spec(s, sep) =~= seq![s]);
        } else {
            assert(s[0] == sep);
            assert(s.take(0) =~= Seq::<u8>::empty());
            assert(s.skip(1) =~= s.drop_first());
            assert(split_spec(s, sep) =~= seq![s.take(0)] + split_spec(s.skip(1), sep));
        }
    } else {
        assert(s[0] != sep);
        let d = s.drop_first();
        lemma_split_len(d, sep);
        lemma_split_peel(d, sep, k - 1);
        let rest = split_spec(d, sep);
        if k == s.len() {
            assert(rest == seq![d]);
            assert(seq![s[0]] + rest[0] =~= s);
            assert(split_spec(s, sep) =~= seq![s]);
        } else {
            assert(rest == seq![d.take(k - 1)] + split_spec(d.skip(k), sep));
            assert(rest[0] == d.take(k - 1));
            assert(seq![s[0]] + d.take(k - 1) =~= s.take(k));
            assert(d.skip(k) =~= s.skip(k + 1));
            assert(split_spec(s, sep) =~= seq![s.take(k)] + split_spec(s.skip(k + 1), sep));
        }
    }
}

/// Splits a byte string at a separator, exactly as `split_spec` does.
pub fn split_bytes(s: &Vec<u8>, sep: u8) -> (r: Vec<Vec<u8>>)
    ensures
        r.deep_view() == split_spec(s@, sep),
{
    let mut pieces: Vec<Vec<u8>> = Vec::new();
    let mut cur: Vec<u8> = Vec::new();
    let mut i: usize = 0;
    let ghost mut i0: int = 0;
    proof {
        assert(s@.skip(0) =~= s@);
    }
    while i < s.len()
        invariant
            0 <= i0 <= i <= s@.len(),
            cur@ == s@.subrange(i0, i as int),
            forall|t: int| i0 <= t < i ==> s@[t] != sep,
            split_spec(s@, sep) == pieces.deep_view() + split_spec(s@.skip(i0), sep),
        decreases s@.len() - i,
    {
        let ghost rem = s@.skip(i0);
        if s[i] == sep {
            proof {
                assert(forall|t: int| 0 <= t < i - i0 ==> rem[t] != sep);
                assert(rem[i - i0] == sep);
                lemma_split_peel(rem, sep, i - i0);
                assert(rem.take(i - i0) =~= s@.subrange(i0, i as int));
                assert(rem.skip(i - i0 + 1) =~= s@.skip(i + 1));
            }
            let ghost oldp = pieces.deep_view();
            let ghost oldv = pieces@;
            pieces.push(cur);
            proof {
                assert(pieces.deep_view() =~= oldp + seq![cur@]) by {
                    assert forall|t: int| 0 <= t < pieces@.len() implies pieces.deep_view()[t] == (
                    oldp + seq![cur@])[t] by {
                        assert(pieces.deep_view()[t] == pieces@[t]@);
                        if t < oldv.len() {
                            assert(pieces@[t] == oldv[t]);
                            assert(oldp[t] == oldv[t]@);
                        } else {
                            assert(pieces@[t] == cur);
                        }
                    }
                };
                assert(split_spec(s@, sep) =~= pieces.deep_view() + split_spec(
                    s@.skip(i + 1),
                    sep,
                ));
            }
            cur = Vec::new();
            proof {
                i0 = i + 1;
                assert(cur@ =~= s@.subrange(i0, i + 1));
            }
        } else {
            cur.push(s[i]);
            proof {
                assert(cur@ =~= s@.subrange(i0, i + 1));
            }
        }
        i = i + 1;
    }
    proof {
        let rem = s@.skip(i0);
        assert(forall|t: int| 0 <= t < rem.len() ==> rem[t] != sep);
        lemma_split_peel(rem, sep, rem.len() as int);
        assert(rem.take(rem.len() as int) =~= rem);
        assert(cur@ == rem);
    }
    let ghost oldp = pieces.deep_view();
    let ghost oldv = pieces@;
    pieces.push(cur);
    proof {
        assert(pieces.deep_view() =~= oldp + seq![cur@]) by {
            assert forall|t: int| 0 <= t < pieces@.len() implies pieces.deep_view()[t] == (oldp
                + seq![cur@])[t] by {
                assert(pieces.deep_view()[t] == pieces@[t]@);
                if t < oldv.len() {
                    assert(pieces@[t] == oldv[t]);
                    assert(oldp[t] == oldv[t]@);
                } else {
                    assert(pieces@[t] == cur);
                }
            }
        };
        assert(split_spec(s@, sep) =~= pieces.deep_view());
    }
    pieces
}

/// Checks one piece for the IPv4 octet shape.
fn is_octet_bytes(p: &Vec<u8>) -> (r: bool)
    ensures
        r == is_ipv4_octet(p@),
{
    if p.len() < 1 || p.len() > 3 {
        return false;
    }
    if p.len() > 1 && p[0] == 48 {
        return false;
    }
    let mut val: u32 = 0;
    let mut i: usize = 0;
    while i < p.len()
        invariant
            0 <= i <= p@.len(),
            p@.len() <= 3,
            forall|k: int| 0 <= k < i ==> is_dec_digit(#[trigger] p@[k]),
            val == dec_value(p@.take(i as int)),
            i == 0 ==> val == 0,
            i == 1 ==> val <= 9,
            i == 2 ==> val <= 99,
            i == 3 ==> val <= 999,
        decreases p@.len() - i,
    {
        let c = p[i];
        if c < 48 || c > 57 {
            return false;
        }
        proof {
            assert(p@.take(i + 1).drop_last() =~= p@.take(i as int));
            assert(p@.take(i + 1).last() == p@[i as int]);
        }
        val = val * 10 + (c - 48) as u32;
        i = i + 1;
    }
    proof {
        assert(p@.take(p@.len() as int) =~= p@);
    }
    val <= 255
}

/// Checks one piece for the IPv6 group shape.
fn is_quibble_bytes(p: &Vec<u8>) -> (r: bool)
    ensures
        r == is_hex_quibble(p@),
{
    if p.len() < 1 || p.len() > 4 {
        return false;
    }
    let mut i: usize = 0;
    while i < p.len()
        invariant
            0 <= i <= p@.len(),
            forall|k: int| 0 <= k < i ==> is_hex_digit(#[trigger] p@[k]),
        decreases p@.len() - i,
    {
        let c = p[i];
        if !((48 <= c && c <= 57) || (97 <= c && c <= 102) || (65 <= c && c <= 70)) {
            return false;
        }
        i = i + 1;
    }
    true
}

/// A valid dotted-quad IPv4 address: four octets separated by dots.
pub open spec fn is_ipv4_text(s: Seq<u8>) -> bool {
    let p = split_spec(s, 46);
    p.len() == 4 && forall|i: int| 0 <= i < 4 ==> is_ipv4_octet(#[trigger] p[i])
}

/// Checks a byte string for the IPv4 form.
pub fn is_ipv4_bytes(s: &Vec<u8>) -> (r: bool)
    ensures
        r == is_ipv4_text(s@),
{
    let pieces = split_bytes(s, 46);
    if pieces.len() != 4 {
        return false;
    }
    let mut i: usize = 0;
    while i < 4
        invariant
            0 <= i <= 4,
            pieces.deep_view() == split_spec(s@, 46),
            pieces@.len() == 4,
            forall|k: int| 0 <= k < i ==> is_ipv4_octet(#[trigger] pieces.deep_view()[k]),
        decreases 4 - i,
    {
        if !is_octet_bytes(&pieces[i]) {
            proof {
                assert(pieces.deep_view()[i as int] == pieces@[i as int]@);
            }
            return false;
        }
        proof {
            assert(pieces.deep_view()[i as int] == pieces@[i as int]@);
        }
        i = i + 1;
    }
    true
}

/// Every piece in `[lo, hi)` is non-empty.
pub open spec fn nonempty_range(p: Seq<Seq<u8>>, lo: int, hi: int) -> bool {
    forall|i: int| lo <= i < hi ==> (#[trigger] p[i]).len() > 0
}

/// Every piece in `[lo, hi)` is a hexadecimal group.
pub open spec fn quibbles_range(p: Seq<Seq<u8>>, lo: int, hi: int) -> bool {
    forall|i: int| lo <= i < hi ==> is_hex_quibble(#[trigger] p[i])
}

/// The pieces `[lo, hi)` form a valid group tail: all hexadecimal groups,
/// except that the final piece may instead be an embedded IPv4 address.
pub open spec fn tail_ok(p: Seq<Seq<u8>>, lo: int, hi: int) -> bool {
    &&& quibbles_range(p, lo, hi - 1)
    &&& lo < hi ==> (is_hex_quibble(p[hi - 1]) || is_ipv4_text(p[hi - 1]))
}

/// How many 16-bit groups the pieces `[lo, hi)` stand for: one per piece,
/// two for an embedded IPv4 tail.
pub open spec fn tail_groups(p: Seq<Seq<u8>>, lo: int, hi: int) -> int {
    hi - lo + if lo < hi && is_ipv4_text(p[hi - 1]) {
        1int
    } else {
        0int
    }
}

/// A valid textual IPv6 address, by the shape of its colon-split pieces:
/// eight groups without compression, or a single `::` standing for one or
/// more zero groups at the start, the end, the middle, or alone; the final
/// group position may hold an embedded IPv4 address, which counts as two
/// groups.
pub open spec fn is_ipv6_text(s: Seq<u8>) -> bool {
    let p = split_spec(s, 58);
    let n = p.len() as int;
    ||| (nonempty_range(p, 0, n) && tail_ok(p, 0, n) && tail_groups(p, 0, n) == 8)
    ||| (n == 3 && p[0].len() == 0 && p[1].len() == 0 && p[2].len() == 0)
    ||| (n >= 3 && p[0].len() == 0 && p[1].len() == 0 && nonempty_range(p, 2, n) && tail_ok(p, 2, n)
        && tail_groups(p, 2, n) <= 7)
    ||| (n >= 3 && p[n - 1].len() == 0 && p[n - 2].len() == 0 && nonempty_range(p, 0, n - 2)
        && quibbles_range(p, 0, n - 2) && n - 2 <= 7)
    ||| (exists|k: int|
        1 <= k < n - 1 && (#[trigger] p[k]).len() == 0 && nonempty_range(p, 0, k) && nonempty_range(
            p,
            k + 1,
            n,
        ) && quibbles_range(p, 0, k) && tail_ok(p, k + 1, n) && k + tail_groups(p, k + 1, n) <= 7)
}

/// Checks that every piece in `[lo, hi)` is non-empty.
fn check_nonempty(p: &Vec<Vec<u8>>, lo: usize, hi: usize) -> (r: bool)
    requires
        lo <= hi <= p@.len(),
    ensures
        r == nonempty_range(p.deep_view(), lo as int, hi as int),
{
    let mut i: usize = lo;
    while i < hi
        invariant
            lo <= i <= hi <= p@.len(),
            forall|k: int| lo <= k < i ==> (#[trigger] p.deep_view()[k]).len() > 0,
        decreases hi - i,
    {
        if p[i].len() == 0 {
            proof {
                assert(p.deep_view()[i as int] == p@[i as int]@);
            }
            return false;
        }
        proof {
            assert(p.deep_view()[i as int] == p@[i as int]@);
        }
        i = i + 1;
    }
    true
}

/// Checks that every piece in `[lo, hi)` is a hexadecimal group.
fn check_quibbles(p: &Vec<Vec<u8>>, lo: usize, hi: usize) -> (r: bool)
    requires
        lo <= hi <= p@.len(),
    ensures
        r == quibbles_range(p.deep_view(), lo as int, hi as int),
{
    let mut i: usize = lo;
    while i < hi
        invariant
            lo <= i <= hi <= p@.len(),
            forall|k: int| lo <= k < i ==> is_hex_quibble(#[trigger] p.deep_view()[k]),
        decreases hi - i,
    {
        if !is_quibble_bytes(&p[i]) {
            proof {
                assert(p.deep_view()[i as int] == p@[i as int]@);
            }
            return false;
        }
        proof {
            assert(p.deep_view()[i as int] == p@[i as int]@);
        }
        i = i + 1;
    }
    true
}

/// Checks the group-tail shape of the pieces `[lo, hi)`.
fn check_tail(p: &Vec<Vec<u8>>, lo: usize, hi: usize) -> (r: bool)
    requires
        lo <= hi <= p@.len(),
    ensures
        r == tail_ok(p.deep_view(), lo as int, hi as int),
{
    if lo == hi {
        return true;
    }
    if !check_quibbles(p, lo, hi - 1) {
        return false;
    }
    proof {
        assert(p.deep_view()[hi - 1] == p@[hi - 1]@);
    }
    is_quibble_bytes(&p[hi - 1]) || is_ipv4_bytes(&p[hi - 1])
}

/// Computes how many 16-bit groups the pieces `[lo, hi)` stand for.
fn tail_groups_exec(p: &Vec<Vec<u8>>, lo: usize, hi: usize) -> (g: usize)
    requires
        lo <= hi <= p@.len(),
        p@.len() < usize::MAX,
    ensures
        g == tail_groups(p.deep_view(), lo as int, hi as int),
{
    proof {
        if lo < hi {
            assert(p.deep_view()[hi - 1] == p@[hi - 1]@);
        }
    }
    if lo < hi && is_ipv4_bytes(&p[hi - 1]) {
        hi - lo + 1
    } else {
        hi - lo
    }
}

/// Checks a byte string for the IPv6 form.
pub fn is_ipv6_bytes(s: &Vec<u8>) -> (r: bool)
    requires
        s@.len() + 2 <= usize::MAX,
    ensures
        r == is_ipv6_text(s@),
{
    let pieces = split_bytes(s, 58);
    let n = pieces.len();
    proof {
        lemma_split_len(s@, 58);
        assert(n < usize::MAX) by {
            assert(pieces.deep_view().len() == pieces@.len());
        };
    }
    let ghost pdv = pieces.deep_view();
    proof {
        assert(pdv.len() == pieces@.len());
        assert forall|t: int| 0 <= t < pdv.len() implies #[trigger] pdv[t] == pieces@[t]@ by {}
    }
    // Eight groups, no compression.
    if check_nonempty(&pieces, 0, n) && check_tail(&pieces, 0, n) {
        if tail_groups_exec(&pieces, 0, n) == 8 {
            return true;
        }
    }
    // `::` alone.
    if n == 3 && pieces[0].len() == 0 && pieces[1].len() == 0 && pieces[2].len() == 0 {
        proof {
            assert(pdv[0] == pieces@[0]@ && pdv[1] == pieces@[1]@ && pdv[2] == pieces@[2]@);
        }
        return true;
    }
    // Leading `::`.
    if n >= 3 && pieces[0].len() == 0 && pieces[1].len() == 0 {
        proof {
            assert(pdv[0] == pieces@[0]@ && pdv[1] == pieces@[1]@);
        }
        if check_nonempty(&pieces, 2, n) && check_tail(&pieces, 2, n) && tail_groups_exec(
            &pieces,
            2,
            n,
        ) <= 7 {
            return true;
        }
    }
    // Trailing `::`.
    if n >= 3 && pieces[n - 1].len() == 0 && pieces[n - 2].len() == 0 {
        proof {
            assert(pdv[n - 1] == pieces@[n - 1]@ && pdv[n - 2] == pieces@[n - 2]@);
        }
        if check_nonempty(&pieces, 0, n - 2) && check_quibbles(&pieces, 0, n - 2) && n - 2 <= 7 {
            return true;
        }
    }
    // `::` in the middle.
    let mut k: usize = 1;
    while n >= 1 && k < n - 1
        invariant
            1 <= k,
            n == pieces@.len(),
            pdv == pieces.deep_view(),
            pdv == split_spec(s@, 58),
            n < usize::MAX,
            forall|kk: int|
                1 <= kk < k ==> !((#[trigger] pdv[kk]).len() == 0 && nonempty_range(pdv, 0, kk)
                    && nonempty_range(pdv, kk + 1, n as int) && quibbles_range(pdv, 0, kk)
                    && tail_ok(pdv, kk + 1, n as int) && kk + tail_groups(pdv, kk + 1, n as int)
                    <= 7),
        decreases n - k,
    {
        proof {
            assert(pdv[k as int] == pieces@[k as int]@);
        }
        if pieces[k].len() == 0 && check_nonempty(&pieces, 0, k) && check_nonempty(&pieces, k + 1, n)
            && check_quibbles(&pieces, 0, k) && check_tail(&pieces, k + 1, n) {
            let g = tail_groups_exec(&pieces, k + 1, n);
            if k <= 7 && g <= 7 - k {
                proof {
                    assert(1 <= k as int && (k as int) < n - 1 && pdv[k as int].len() == 0);
                }
                return true;
            }
        }
        k = k + 1;
    }
    proof {
        assert(!is_ipv6_text(s@));
    }
    false
}

/// A valid textual IP address: IPv4 or IPv6.
pub open spec fn is_ip_text(s: Seq<u8>) -> bool {
    is_ipv4_text(s) || is_ipv6_text(s)
}

/// Checks a byte string for either IP form.
pub fn is_ip_bytes(s: &Vec<u8>) -> (r: bool)
    requires
        s@.len() + 2 <= usize::MAX,
    ensures
        r == is_ip_text(s@),
{
    is_ipv4_bytes(s) || is_ipv6_bytes(s)
}

} // verus!
