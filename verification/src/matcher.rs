//! Subnet matching: reconcile the resolved addresses against the catalog.
//! Each address claims the first remaining catalog subnet that contains it;
//! a claimed subnet leaves the remaining catalog, so the matched list and
//! the remaining catalog always partition the original catalog.

use vstd::prelude::*;
use crate::cidr::Ipv4Cidr;
use crate::catalog::no_dups;

verus! {

/// The subnet `c` contains at least one of the addresses.
pub open spec fn covers(c: Ipv4Cidr, addrs: Seq<u32>) -> bool {
    exists|i: int| 0 <= i < addrs.len() && c.spec_contains(#[trigger] addrs[i])
}

/// No address lies inside two distinct entries of the catalog.
pub open spec fn pairwise_disjoint(s: Seq<Ipv4Cidr>) -> bool {
    forall|i: int, j: int, ip: u32|
        0 <= i < s.len() && 0 <= j < s.len() && i != j ==> !((#[trigger] s[i].spec_contains(ip))
            && (#[trigger] s[j].spec_contains(ip)))
}

/// Every entry is canonical.
pub open spec fn all_well_formed(s: Seq<Ipv4Cidr>) -> bool {
    forall|i: int| 0 <= i < s.len() ==> (#[trigger] s[i]).well_formed()
}

/// Match the resolved addresses against the catalog.
///
/// Returns `(matched, remaining)`. Addresses are taken in order; each scans
/// the current remaining catalog for the first subnet containing it, which
/// moves (once, in discovery order) to the matched list; an address inside
/// no remaining subnet is skipped silently. The two results partition the
/// catalog: together they hold exactly its members and no member twice.
/// Every matched subnet contains at least one of the addresses, and when
/// the catalog is non-overlapping the matched list holds exactly the
/// catalog subnets that contain at least one address.
pub fn match_subnets(addrs: &Vec<u32>, catalog: Vec<Ipv4Cidr>) -> (r: (Vec<Ipv4Cidr>, Vec<
    Ipv4Cidr,
>))
    requires
        no_dups(catalog@),
        all_well_formed(catalog@),
    ensures
        forall|c: Ipv4Cidr| catalog@.contains(c) <==> r.0@.contains(c) || r.1@.contains(c),
        forall|c: Ipv4Cidr| !(r.0@.contains(c) && r.1@.contains(c)),
        no_dups(r.0@),
        no_dups(r.1@),
        all_well_formed(r.0@),
        all_well_formed(r.1@),
        forall|k: int| 0 <= k < r.0@.len() ==> covers(#[trigger] r.0@[k], addrs@),
        pairwise_disjoint(catalog@) ==> (forall|c: Ipv4Cidr|
            r.0@.contains(c) <==> catalog@.contains(c) && covers(c, addrs@)),
{
    let mut remaining = catalog;
    let mut matched: Vec<Ipv4Cidr> = Vec::new();
    let ghost cat = remaining@;
    let mut ai: usize = 0;
    while ai < addrs.len()
        invariant
            ai <= addrs@.len(),
            cat == catalog@,
            no_dups(cat),
            all_well_formed(cat),
            forall|c: Ipv4Cidr| cat.contains(c) <==> matched@.contains(c) || remaining@.contains(c),
            forall|c: Ipv4Cidr| !(matched@.contains(c) && remaining@.contains(c)),
            no_dups(matched@),
            no_dups(remaining@),
            all_well_formed(matched@),
            all_well_formed(remaining@),
            forall|k: int|
                0 <= k < matched@.len() ==> covers(
                    #[trigger] matched@[k],
                    addrs@.subrange(0, ai as int),
                ),
            pairwise_disjoint(cat) ==> (forall|t: int, u: int|
                0 <= t < remaining@.len() && 0 <= u < ai ==> !(#[trigger] remaining@[t])
                    .spec_contains(#[trigger] addrs@[u])),
        decreases addrs@.len() - ai,
    {
        let a = addrs[ai];
        let ghost prev_m = matched@;
        let ghost prev_r = remaining@;
        let mut j: usize = 0;
        let mut found: bool = false;
        while j < remaining.len() && !found
            invariant
                j <= remaining@.len(),
                remaining@ == prev_r,
                all_well_formed(remaining@),
                forall|t: int| 0 <= t < j ==> !(#[trigger] remaining@[t]).spec_contains(a),
                found ==> j < remaining@.len() && remaining@[j as int].spec_contains(a),
            decreases remaining@.len() - j + (if found { 0int } else { 1int }),
        {
            if remaining[j].contains(a) {
                found = true;
            } else {
                j = j + 1;
            }
        }
        if found {
            proof {
                prev_r.remove_ensures(j as int);
            }
            let c = remaining.remove(j);
            matched.push(c);
            proof {
                let jj = j as int;
                assert(c == prev_r[jj]);
                assert(forall|t: int| 0 <= t < jj ==> #[trigger] remaining@[t] == prev_r[t]);
                assert(forall|t: int|
                    jj <= t < prev_r.len() - 1 ==> #[trigger] remaining@[t] == prev_r[t + 1]);
                assert forall|cc: Ipv4Cidr| remaining@.contains(cc) implies prev_r.contains(
                    cc,
                ) && cc != c by {
                    let t = choose|t: int| 0 <= t < remaining@.len() && remaining@[t] == cc;
                    if t < jj {
                        assert(prev_r[t] == cc);
                    } else {
                        assert(prev_r[t + 1] == cc);
                    }
                }
                assert forall|cc: Ipv4Cidr| prev_r.contains(cc) && cc != c implies remaining@
                    .contains(cc) by {
                    let t = choose|t: int| 0 <= t < prev_r.len() && prev_r[t] == cc;
                    assert(t != jj);
                    if t < jj {
                        assert(remaining@[t] == cc);
                    } else {
                        assert(remaining@[t - 1] == cc);
                    }
                }
                assert forall|cc: Ipv4Cidr| matched@.contains(cc) implies prev_m.contains(cc) || cc
                    == c by {
                    vstd::seq_lib::lemma_seq_contains_after_push(prev_m, c, cc);
                }
                assert forall|cc: Ipv4Cidr| prev_m.contains(cc) || cc == c implies matched@
                    .contains(cc) by {
                    vstd::seq_lib::lemma_seq_contains_after_push(prev_m, c, cc);
                }
                assert forall|cc: Ipv4Cidr| !(matched@.contains(cc) && remaining@.contains(
                    cc,
                )) by {
                    if matched@.contains(cc) && remaining@.contains(cc) {
                        assert(prev_r.contains(cc) && cc != c);
                        assert(prev_m.contains(cc) || cc == c);
                        assert(prev_m.contains(cc) && prev_r.contains(cc));
                    }
                }
                assert forall|cc: Ipv4Cidr|
                    cat.contains(cc) implies matched@.contains(cc) || remaining@.contains(cc) by {
                    assert(prev_m.contains(cc) || prev_r.contains(cc));
                    if prev_r.contains(cc) && cc != c {
                        assert(remaining@.contains(cc));
                    }
                }
                assert forall|cc: Ipv4Cidr|
                    matched@.contains(cc) || remaining@.contains(cc) implies cat.contains(cc) by {
                    if matched@.contains(cc) {
                        assert(prev_m.contains(cc) || cc == c);
                        assert(prev_r.contains(c));
                    } else {
                        assert(prev_r.contains(cc));
                    }
                }
                assert(no_dups(remaining@)) by {
                    assert forall|t1: int, t2: int|
                        0 <= t1 < t2 < remaining@.len() implies remaining@[t1] != remaining@[t2] by {
                        if t2 < jj {
                        } else if t1 < jj {
                            assert(remaining@[t1] == prev_r[t1]);
                            assert(remaining@[t2] == prev_r[t2 + 1]);
                        } else {
                            assert(remaining@[t1] == prev_r[t1 + 1]);
                            assert(remaining@[t2] == prev_r[t2 + 1]);
                        }
                    }
                }
                assert(no_dups(matched@)) by {
                    assert(!prev_m.contains(c));
                    assert forall|t1: int, t2: int|
                        0 <= t1 < t2 < matched@.len() implies matched@[t1] != matched@[t2] by {
                        if t2 == matched@.len() - 1 {
                            assert(matched@[t1] == prev_m[t1]);
                            assert(prev_m.contains(prev_m[t1]));
                        }
                    }
                }
                assert(all_well_formed(matched@)) by {
                    assert(prev_r.contains(c));
                    assert(cat.contains(c));
                    let t = choose|t: int| 0 <= t < cat.len() && cat[t] == c;
                    assert(cat[t].well_formed());
                }
                assert(all_well_formed(remaining@));
                let processed = addrs@.subrange(0, ai as int);
                let processed1 = addrs@.subrange(0, ai + 1);
                assert(processed1 =~= processed.push(a));
                assert(processed1[ai as int] == a);
                assert forall|k: int| 0 <= k < matched@.len() implies covers(
                    #[trigger] matched@[k],
                    processed1,
                ) by {
                    if k < prev_m.len() {
                        assert(covers(prev_m[k], processed));
                        let u = choose|u: int|
                            0 <= u < processed.len() && prev_m[k].spec_contains(
                                #[trigger] processed[u]);
                        assert(processed1[u] == processed[u]);
                        assert(matched@[k].spec_contains(processed1[u]));
                    } else {
                        assert(matched@[k] == c);
                        assert(c.spec_contains(a));
                        assert(matched@[k].spec_contains(processed1[ai as int]));
                    }
                }
                if pairwise_disjoint(cat) {
                    assert forall|t: int, u: int|
                        0 <= t < remaining@.len() && 0 <= u < ai + 1 implies !(
                    #[trigger] remaining@[t]).spec_contains(#[trigger] addrs@[u]) by {
                        let cc = remaining@[t];
                        assert(prev_r.contains(cc) && cc != c);
                        if u < ai {
                            let t2 = choose|t2: int|
                                0 <= t2 < prev_r.len() && prev_r[t2] == cc;
                        } else {
                            assert(addrs@[u] == a);
                            assert(cat.contains(cc));
                            assert(cat.contains(c));
                            let ti = choose|ti: int| 0 <= ti < cat.len() && cat[ti] == cc;
                            let ci = choose|ci: int| 0 <= ci < cat.len() && cat[ci] == c;
                            assert(ti != ci);
                            assert(c.spec_contains(a));
                            assert(!(cat[ti].spec_contains(a) && cat[ci].spec_contains(a)));
                        }
                    }
                }
            }
        } else {
            proof {
                let processed = addrs@.subrange(0, ai as int);
                let processed1 = addrs@.subrange(0, ai + 1);
                assert(processed1 =~= processed.push(a));
                assert forall|k: int| 0 <= k < matched@.len() implies covers(
                    #[trigger] matched@[k],
                    processed1,
                ) by {
                    assert(covers(matched@[k], processed));
                    let u = choose|u: int|
                        0 <= u < processed.len() && matched@[k].spec_contains(
                            #[trigger] processed[u]);
                    assert(processed1[u] == processed[u]);
                    assert(matched@[k].spec_contains(processed1[u]));
                }
                if pairwise_disjoint(cat) {
                    assert forall|t: int, u: int|
                        0 <= t < remaining@.len() && 0 <= u < ai + 1 implies !(
                    #[trigger] remaining@[t]).spec_contains(#[trigger] addrs@[u]) by {
                        if u == ai {
                            assert(addrs@[u] == a);
                            assert(!remaining@[t].spec_contains(a));
                        }
                    }
                }
            }
        }
        ai = ai + 1;
    }
    proof {
        assert(addrs@.subrange(0, addrs@.len() as int) =~= addrs@);
        if pairwise_disjoint(cat) {
            assert forall|c: Ipv4Cidr| matched@.contains(c) implies cat.contains(c) && covers(
                c,
                addrs@,
            ) by {
                let k = choose|k: int| 0 <= k < matched@.len() && matched@[k] == c;
                assert(covers(matched@[k], addrs@));
            }
            assert forall|c: Ipv4Cidr| cat.contains(c) && covers(c, addrs@) implies matched@
                .contains(c) by {
                if remaining@.contains(c) {
                    let t = choose|t: int| 0 <= t < remaining@.len() && remaining@[t] == c;
                    let u = choose|u: int|
                        0 <= u < addrs@.len() && c.spec_contains(#[trigger] addrs@[u]);
                    assert(!remaining@[t].spec_contains(addrs@[u]));
                }
            }
        }
    }
    (matched, remaining)
}

} // verus!
