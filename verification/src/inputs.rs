//! The inputs of the configuration command: the comma-separated subnet
//! list handed over on the command line, and the rule that an empty
//! resolution result is a failure.

use vstd::prelude::*;
use vstd::string::*;
use crate::cidr::{Ipv4Cidr, spec_parse_cidr, parse_cidr};
use crate::errors::RouterError;

verus! {

/// The index just past the run of non-comma characters that starts at `i`.
pub open spec fn comma_run_end(s: Seq<char>, i: int) -> int
    decreases s.len() - i,
{
    if 0 <= i < s.len() && s[i] != ',' {
        comma_run_end(s, i + 1)
    } else {
        i
    }
}

/// Basic bounds of `comma_run_end`.
proof fn lemma_comma_run_end_props(s: Seq<char>, i: int)
    requires
        0 <= i <= s.len(),
    ensures
        i <= comma_run_end(s, i) <= s.len(),
        forall|t: int| i <= t < comma_run_end(s, i) ==> (#[trigger] s[t]) != ',',
        comma_run_end(s, i) == s.len() || s[comma_run_end(s, i)] == ',',
    decreases s.len() - i,
{
    if 0 <= i < s.len() && s[i] != ',' {
        lemma_comma_run_end_props(s, i + 1);
    }
}

/// Where a run of comma-free characters is known to stop, `comma_run_end`
/// stops there.
proof fn lemma_comma_run_concat(s: Seq<char>, i: int, k: int)
    requires
        0 <= i <= k <= s.len(),
        forall|t: int| i <= t < k ==> (#[trigger] s[t]) != ',',
        k == s.len() || s[k] == ',',
    ensures
        comma_run_end(s, i) == k,
    decreases k - i,
{
    if i < k {
        lemma_comma_run_concat(s, i + 1, k);
    }
}

/// The comma-separated fields of `s`, in order; empty fields are kept, and
/// the empty text has one empty field.
pub open spec fn comma_fields(s: Seq<char>) -> Seq<Seq<char>>
    decreases s.len(),
    via comma_fields_decreases
{
    let e = comma_run_end(s, 0);
    if e == s.len() {
        seq![s]
    } else {
        seq![s.subrange(0, e)] + comma_fields(s.subrange(e + 1, s.len() as int))
    }
}

#[via_fn]
proof fn comma_fields_decreases(s: Seq<char>) {
    lemma_comma_run_end_props(s, 0);
}

/// Parse the comma-separated subnet list: every field must be a CIDR
/// subnet; the result keeps the fields' order (and any repetitions). Fails
/// with the first malformed field's text if and only if one exists — in
/// particular the empty list text fails, its one field being empty.
pub fn parse_subnet_list(s: &str) -> (r: Result<Vec<Ipv4Cidr>, RouterError>)
    ensures
        r is Ok <==> (forall|k: int|
            0 <= k < comma_fields(s@).len() ==> spec_parse_cidr(
                #[trigger] comma_fields(s@)[k],
            ) is Some),
        r matches Ok(v) ==> v@.len() == comma_fields(s@).len() && (forall|k: int|
            0 <= k < v@.len() ==> spec_parse_cidr(comma_fields(s@)[k]) == Some(
                #[trigger] v@[k],
            )),
        r matches Err(e) ==> (e matches RouterError::Parse(t) && exists|k: int|
            0 <= k < comma_fields(s@).len() && #[trigger] comma_fields(s@)[k] == t@
                && spec_parse_cidr(t@) is None && (forall|t2: int|
                0 <= t2 < k ==> spec_parse_cidr(#[trigger] comma_fields(s@)[t2]) is Some)),
{
    let len = s.unicode_len();
    let mut fields: Vec<String> = Vec::new();
    proof {
        assert(s@.subrange(0, len as int) =~= s@);
        assert(fields@.map_values(|t: String| t@) =~= Seq::<Seq<char>>::empty());
    }
    let mut i: usize = 0;
    let mut done: bool = false;
    while !done
        invariant
            0 <= i <= len,
            len == s@.len(),
            !done ==> comma_fields(s@) =~= fields@.map_values(|t: String| t@) + comma_fields(
                s@.subrange(i as int, len as int),
            ),
            done ==> comma_fields(s@) =~= fields@.map_values(|t: String| t@),
        decreases len - i, (if done { 0int } else { 1int }),
    {
        let ghost rest = s@.subrange(i as int, len as int);
        let mut e: usize = i;
        while e < len && s.get_char(e) != ','
            invariant
                i <= e <= len,
                len == s@.len(),
                forall|t: int| i <= t < e ==> (#[trigger] s@[t]) != ',',
            decreases len - e,
        {
            e = e + 1;
        }
        proof {
            assert forall|t: int| 0 <= t < e - i implies (#[trigger] rest[t]) != ',' by {
                assert(rest[t] == s@[i + t]);
            }
            lemma_comma_run_concat(rest, 0, e - i);
        }
        let field = s.substring_char(i, e).to_owned();
        let ghost prev = fields@.map_values(|t: String| t@);
        fields.push(field);
        proof {
            assert(fields@.map_values(|t: String| t@) =~= prev + seq![
                s@.subrange(i as int, e as int),
            ]);
            assert(rest.subrange(0, e - i) =~= s@.subrange(i as int, e as int));
        }
        if e == len {
            proof {
                assert(comma_fields(rest) =~= seq![rest]);
                assert(rest =~= s@.subrange(i as int, e as int));
            }
            done = true;
        } else {
            proof {
                assert(rest.subrange(e - i + 1, rest.len() as int) =~= s@.subrange(
                    e + 1,
                    len as int,
                ));
                assert(comma_fields(rest) =~= seq![s@.subrange(i as int, e as int)]
                    + comma_fields(s@.subrange(e + 1, len as int)));
            }
            i = e + 1;
        }
    }
    let ghost fviews = fields@.map_values(|t: String| t@);
    let mut out: Vec<Ipv4Cidr> = Vec::new();
    let mut k: usize = 0;
    while k < fields.len()
        invariant
            k <= fields@.len(),
            fviews == fields@.map_values(|t: String| t@),
            comma_fields(s@) == fviews,
            out@.len() == k,
            forall|t: int|
                0 <= t < k ==> spec_parse_cidr(fviews[t]) == Some(#[trigger] out@[t]),
        decreases fields@.len() - k,
    {
        match parse_cidr(fields[k].as_str()) {
            Ok(c) => {
                out.push(c);
            },
            Err(e) => {
                proof {
                    assert forall|t2: int| 0 <= t2 < k implies spec_parse_cidr(
                        #[trigger] comma_fields(s@)[t2],
                    ) is Some by {
                        assert(spec_parse_cidr(fviews[t2]) == Some(out@[t2]));
                    }
                    assert(0 <= k < comma_fields(s@).len() && comma_fields(s@)[k as int]
                        == fviews[k as int] && spec_parse_cidr(fviews[k as int]) is None);
                }
                return Err(e);
            },
        }
        k = k + 1;
    }
    proof {
        assert forall|t: int| 0 <= t < comma_fields(s@).len() implies spec_parse_cidr(
            #[trigger] comma_fields(s@)[t],
        ) is Some by {
            assert(spec_parse_cidr(fviews[t]) == Some(out@[t]));
        }
    }
    Ok(out)
}

/// A resolution that returned no address at all is a failure: succeed with
/// the addresses exactly when there is at least one, else fail with
/// `Resolution` carrying the hostname.
pub fn check_resolved(hostname: &str, addrs: Vec<u32>) -> (r: Result<Vec<u32>, RouterError>)
    ensures
        r is Ok <==> addrs@.len() > 0,
        r matches Ok(v) ==> v@ == addrs@,
        r matches Err(e) ==> (e matches RouterError::Resolution(h) && h@ == hostname@),
{
    if addrs.len() == 0 {
        Err(RouterError::Resolution(hostname.to_owned()))
    } else {
        Ok(addrs)
    }
}

} // verus!
