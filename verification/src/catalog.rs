//! The provider subnet catalog: parsed from the optional prefix texts of the
//! provider's published list, then normalized to a sorted, duplicate-free
//! sequence of canonical subnets.

use vstd::prelude::*;
use vstd::seq_lib::lemma_seq_contains_after_push;
use crate::cidr::{Ipv4Cidr, spec_parse_cidr, parse_cidr};
use crate::errors::RouterError;

verus! {

/// No two entries of `s` are equal.
pub open spec fn no_dups(s: Seq<Ipv4Cidr>) -> bool {
    forall|i: int, j: int| 0 <= i < j < s.len() ==> s[i] != s[j]
}

/// Strictly ascending in the canonical subnet order; such a sequence is
/// also duplicate-free.
pub open spec fn sorted_strict(s: Seq<Ipv4Cidr>) -> bool {
    forall|i: int, j: int| 0 <= i < j < s.len() ==> s[i].spec_lt(s[j])
}

/// A strictly sorted catalog has no duplicate entries.
pub proof fn lemma_sorted_strict_no_dups(s: Seq<Ipv4Cidr>)
    requires
        sorted_strict(s),
    ensures
        no_dups(s),
{
    assert forall|i: int, j: int| 0 <= i < j < s.len() implies s[i] != s[j] by {
        assert(s[i].spec_lt(s[j]));
    }
}

/// Normalization is canonical: two sorted, duplicate-free catalogs with the
/// same members are the same sequence. Hence sorting and deduplicating is
/// idempotent, and re-normalizing the same raw input yields the identical
/// ordered result.
pub proof fn lemma_sorted_unique_seqs_equal(a: Seq<Ipv4Cidr>, b: Seq<Ipv4Cidr>)
    requires
        sorted_strict(a),
        sorted_strict(b),
        forall|c: Ipv4Cidr| a.contains(c) <==> b.contains(c),
    ensures
        a =~= b,
    decreases a.len(),
{
    if a.len() == 0 {
        if b.len() > 0 {
            assert(a.contains(b[0]));
        }
    } else {
        assert(b.contains(a[0]));
        assert(a.contains(b[0]));
        let i = choose|i: int| 0 <= i < b.len() && b[i] == a[0];
        let j = choose|j: int| 0 <= j < a.len() && a[j] == b[0];
        assert(a[0] == b[0]) by {
            if i > 0 {
                assert(b[0].spec_lt(b[i]));
                assert(a[j] == b[0]);
                if j > 0 {
                    assert(a[0].spec_lt(a[j]));
                }
            }
        }
        let a1 = a.drop_first();
        let b1 = b.drop_first();
        assert forall|c: Ipv4Cidr| a1.contains(c) implies b1.contains(c) by {
            let t = choose|t: int| 0 <= t < a1.len() && a1[t] == c;
            assert(a[t + 1] == c);
            assert(a[0].spec_lt(c));
            assert(a.contains(c));
            assert(b.contains(c));
            let u = choose|u: int| 0 <= u < b.len() && b[u] == c;
            assert(u != 0);
            assert(b1[u - 1] == c);
        }
        assert forall|c: Ipv4Cidr| b1.contains(c) implies a1.contains(c) by {
            let t = choose|t: int| 0 <= t < b1.len() && b1[t] == c;
            assert(b[t + 1] == c);
            assert(b[0].spec_lt(c));
            assert(b.contains(c));
            assert(a.contains(c));
            let u = choose|u: int| 0 <= u < a.len() && a[u] == c;
            assert(u != 0);
            assert(a1[u - 1] == c);
        }
        lemma_sorted_unique_seqs_equal(a1, b1);
        assert(a =~= seq![a[0]] + a1);
        assert(b =~= seq![b[0]] + b1);
    }
}

/// Sort the subnets and drop duplicates: the result is the strictly
/// ascending sequence with exactly the members of the input.
pub fn normalize_catalog(subnets: &Vec<Ipv4Cidr>) -> (r: Vec<Ipv4Cidr>)
    ensures
        sorted_strict(r@),
        forall|c: Ipv4Cidr| r@.contains(c) <==> subnets@.contains(c),
{
    let mut out: Vec<Ipv4Cidr> = Vec::new();
    let mut k: usize = 0;
    while k < subnets.len()
        invariant
            k <= subnets@.len(),
            sorted_strict(out@),
            forall|c: Ipv4Cidr|
                out@.contains(c) <==> subnets@.subrange(0, k as int).contains(c),
        decreases subnets@.len() - k,
    {
        let x = subnets[k];
        let ghost prev = out@;
        let mut j: usize = 0;
        while j < out.len() && out[j].lt(&x)
            invariant
                j <= out@.len(),
                forall|t: int| 0 <= t < j ==> (#[trigger] out@[t]).spec_lt(x),
                sorted_strict(out@),
                out@ == prev,
            decreases out@.len() - j,
        {
            j = j + 1;
        }
        if j < out.len() && out[j] == x {
            proof {
                assert(out@.contains(x));
            }
        } else {
            proof {
                prev.insert_ensures(j as int, x);
            }
            out.insert(j, x);
            proof {
                let jj = j as int;
                assert(forall|t: int| 0 <= t < jj ==> #[trigger] out@[t] == prev[t]);
                assert(forall|t: int| jj <= t < prev.len() ==> #[trigger] out@[t + 1] == prev[t]);
                assert(out@[jj] == x);
                assert forall|c: Ipv4Cidr| out@.contains(c) implies prev.contains(c) || c == x by {
                    let t = choose|t: int| 0 <= t < out@.len() && out@[t] == c;
                    if t < jj {
                        assert(prev[t] == c);
                    } else if t > jj {
                        assert(out@[(t - 1) + 1] == prev[t - 1]);
                        assert(prev[t - 1] == c);
                    }
                }
                assert forall|c: Ipv4Cidr| prev.contains(c) implies out@.contains(c) by {
                    let t = choose|t: int| 0 <= t < prev.len() && prev[t] == c;
                    if t < jj {
                        assert(out@[t] == c);
                    } else {
                        assert(out@[t + 1] == c);
                    }
                }
                assert(out@.contains(x)) by {
                    assert(out@[jj] == x);
                }
                if jj < prev.len() {
                    assert(!prev[jj].spec_lt(x) && prev[jj] != x);
                    assert(x.spec_lt(prev[jj]));
                }
                assert forall|t1: int, t2: int| 0 <= t1 < t2 < out@.len() implies (
                #[trigger] out@[t1]).spec_lt(#[trigger] out@[t2]) by {
                    if t2 < jj {
                        assert(out@[t1] == prev[t1] && out@[t2] == prev[t2]);
                    } else if t1 < jj && t2 == jj {
                        assert(out@[t1] == prev[t1]);
                        assert(prev[t1].spec_lt(x));
                    } else if t1 < jj && t2 > jj {
                        assert(out@[t1] == prev[t1]);
                        assert(out@[(t2 - 1) + 1] == prev[t2 - 1]);
                        if t2 - 1 == jj {
                            assert(prev[t1].spec_lt(x));
                            assert(x.spec_lt(prev[jj]));
                        } else {
                            assert(prev[t1].spec_lt(prev[t2 - 1]));
                        }
                    } else if t1 == jj && t2 > jj {
                        assert(out@[(t2 - 1) + 1] == prev[t2 - 1]);
                        assert(x.spec_lt(prev[jj]));
                        if t2 - 1 > jj {
                            assert(prev[jj].spec_lt(prev[t2 - 1]));
                        }
                    } else {
                        assert(out@[(t1 - 1) + 1] == prev[t1 - 1]);
                        assert(out@[(t2 - 1) + 1] == prev[t2 - 1]);
                        assert(prev[t1 - 1].spec_lt(prev[t2 - 1]));
                    }
                }
            }
        }
        proof {
            let sub0 = subnets@.subrange(0, k as int);
            let sub1 = subnets@.subrange(0, k + 1);
            assert(sub1 =~= sub0.push(x));
            assert forall|c: Ipv4Cidr| out@.contains(c) implies sub1.contains(c) by {
                lemma_seq_contains_after_push(sub0, x, c);
                assert(prev.contains(c) || c == x);
            }
            assert forall|c: Ipv4Cidr| sub1.contains(c) implies out@.contains(c) by {
                lemma_seq_contains_after_push(sub0, x, c);
                if sub0.contains(c) {
                    assert(prev.contains(c));
                    if prev == out@ {
                    } else {
                        assert(out@.contains(c));
                    }
                } else {
                    assert(c == x);
                    assert(out@.contains(x));
                }
            }
        }
        k = k + 1;
    }
    proof {
        assert(subnets@.subrange(0, subnets@.len() as int) =~= subnets@);
    }
    out
}

/// Build the catalog from the provider's prefix list: entries without an
/// IPv4 prefix are skipped without error, each present entry must parse as
/// a CIDR subnet, and the result is normalized (sorted, deduplicated).
/// Fails with the first malformed entry's text if and only if one exists.
pub fn build_catalog(entries: &Vec<Option<String>>) -> (r: Result<Vec<Ipv4Cidr>, RouterError>)
    ensures
        r is Ok <==> (forall|k: int|
            0 <= k < entries@.len() ==> ((#[trigger] entries@[k]) matches Some(t)
                ==> spec_parse_cidr(t@) is Some)),
        r matches Ok(v) ==> sorted_strict(v@) && (forall|c: Ipv4Cidr|
            v@.contains(c) <==> exists|k: int|
                0 <= k < entries@.len() && ((#[trigger] entries@[k]) matches Some(t)
                    && spec_parse_cidr(t@) == Some(c))),
        r matches Err(e) ==> (e matches RouterError::Parse(t) && exists|k: int|
            0 <= k < entries@.len() && ((#[trigger] entries@[k]) matches Some(u) && u@ == t@
                && spec_parse_cidr(u@) is None) && (forall|t2: int|
                0 <= t2 < k ==> ((#[trigger] entries@[t2]) matches Some(s2)
                    ==> spec_parse_cidr(s2@) is Some))),
{
    let mut parsed: Vec<Ipv4Cidr> = Vec::new();
    let mut k: usize = 0;
    while k < entries.len()
        invariant
            k <= entries@.len(),
            forall|t: int|
                0 <= t < k ==> ((#[trigger] entries@[t]) matches Some(s)
                    ==> spec_parse_cidr(s@) is Some),
            forall|c: Ipv4Cidr|
                parsed@.contains(c) <==> exists|t: int|
                    0 <= t < k && ((#[trigger] entries@[t]) matches Some(s)
                        && spec_parse_cidr(s@) == Some(c)),
        decreases entries@.len() - k,
    {
        let ghost prev = parsed@;
        let ghost kk = k as int;
        match &entries[k] {
            Some(text) => {
                match parse_cidr(text.as_str()) {
                    Ok(c) => {
                        parsed.push(c);
                        proof {
                            assert(entries@[kk] matches Some(s) && spec_parse_cidr(s@) == Some(c));
                            assert forall|cc: Ipv4Cidr| parsed@.contains(cc) implies exists|t: int|
                                0 <= t < kk + 1 && ((#[trigger] entries@[t]) matches Some(s)
                                    && spec_parse_cidr(s@) == Some(cc)) by {
                                lemma_seq_contains_after_push(prev, c, cc);
                                if prev.contains(cc) {
                                    let t = choose|t: int|
                                        0 <= t < kk && ((#[trigger] entries@[t]) matches Some(s)
                                            && spec_parse_cidr(s@) == Some(cc));
                                    assert(0 <= t < kk + 1 && (entries@[t] matches Some(s)
                                        && spec_parse_cidr(s@) == Some(cc)));
                                } else {
                                    assert(cc == c);
                                    assert(0 <= kk < kk + 1 && (entries@[kk] matches Some(s)
                                        && spec_parse_cidr(s@) == Some(cc)));
                                }
                            }
                            assert forall|cc: Ipv4Cidr|
                                (exists|t: int|
                                    0 <= t < kk + 1 && ((#[trigger] entries@[t]) matches Some(s)
                                        && spec_parse_cidr(s@) == Some(cc)))
                                implies parsed@.contains(cc) by {
                                lemma_seq_contains_after_push(prev, c, cc);
                                let t = choose|t: int|
                                    0 <= t < kk + 1 && ((#[trigger] entries@[t]) matches Some(s)
                                        && spec_parse_cidr(s@) == Some(cc));
                                if t < kk {
                                    assert(prev.contains(cc));
                                } else {
                                    assert(cc == c);
                                }
                            }
                        }
                    },
                    Err(e) => {
                        proof {
                            assert(0 <= kk < entries@.len() && (entries@[kk] matches Some(s)
                                && spec_parse_cidr(s@) is None) && (forall|t2: int|
                                0 <= t2 < kk ==> ((#[trigger] entries@[t2]) matches Some(s2)
                                    ==> spec_parse_cidr(s2@) is Some)));
                        }
                        return Err(e);
                    },
                }
            },
            None => {
                proof {
                    assert(entries@[kk] is None);
                    assert forall|cc: Ipv4Cidr| parsed@.contains(cc) implies exists|t: int|
                        0 <= t < kk + 1 && ((#[trigger] entries@[t]) matches Some(s)
                            && spec_parse_cidr(s@) == Some(cc)) by {
                        let t = choose|t: int|
                            0 <= t < kk && ((#[trigger] entries@[t]) matches Some(s)
                                && spec_parse_cidr(s@) == Some(cc));
                        assert(0 <= t < kk + 1 && (entries@[t] matches Some(s)
                            && spec_parse_cidr(s@) == Some(cc)));
                    }
                    assert forall|cc: Ipv4Cidr|
                        (exists|t: int|
                            0 <= t < kk + 1 && ((#[trigger] entries@[t]) matches Some(s)
                                && spec_parse_cidr(s@) == Some(cc)))
                        implies parsed@.contains(cc) by {
                        let t = choose|t: int|
                            0 <= t < kk + 1 && ((#[trigger] entries@[t]) matches Some(s)
                                && spec_parse_cidr(s@) == Some(cc));
                        assert(t < kk);
                    }
                }
            },
        }
        k = k + 1;
    }
    Ok(normalize_catalog(&parsed))
}

} // verus!
