//! The discovery output format: a JSON array of CIDR strings, written and
//! read against one grammar. The grammar is the compact form — `["a","b"]`
//! with no spaces and no escape sequences — which covers every string a
//! subnet can print to.

use vstd::prelude::*;
use vstd::string::*;
use crate::cidr::{Ipv4Cidr, spec_cidr_text, spec_parse_cidr, format_cidr, parse_cidr,
    lemma_cidr_text_parses, lemma_dec_seq_props, byte0, byte1, byte2, byte3, is_digit};

verus! {

/// A string in quotes.
pub open spec fn quoted(s: Seq<char>) -> Seq<char> {
    seq!['"'] + s + seq!['"']
}

/// The comma-separated quoted items.
pub open spec fn json_items(items: Seq<Seq<char>>) -> Seq<char>
    decreases items.len(),
{
    if items.len() == 0 {
        Seq::empty()
    } else if items.len() == 1 {
        quoted(items[0])
    } else {
        quoted(items[0]) + seq![','] + json_items(items.drop_first())
    }
}

/// The JSON array holding the items in order.
pub open spec fn json_array(items: Seq<Seq<char>>) -> Seq<char> {
    seq!['['] + json_items(items) + seq![']']
}

/// Appending one more item to the items text.
proof fn lemma_json_items_push(items: Seq<Seq<char>>, x: Seq<char>)
    ensures
        items.len() == 0 ==> json_items(items.push(x)) == quoted(x),
        items.len() > 0 ==> json_items(items.push(x)) =~= json_items(items) + seq![','] + quoted(
            x,
        ),
    decreases items.len(),
{
    if items.len() == 0 {
        assert(items.push(x).len() == 1);
        assert(items.push(x)[0] == x);
    } else if items.len() == 1 {
        assert(items.push(x).drop_first() =~= seq![x]);
        assert(items.push(x)[0] == items[0]);
        assert(json_items(seq![x]) == quoted(x));
        assert(json_items(items.push(x)) == quoted(items[0]) + seq![','] + json_items(seq![x]));
        assert(json_items(items) == quoted(items[0]));
    } else {
        lemma_json_items_push(items.drop_first(), x);
        assert(items.push(x).drop_first() =~= items.drop_first().push(x));
        assert(items.push(x)[0] == items[0]);
        assert(json_items(items.push(x)) == quoted(items[0]) + seq![','] + json_items(
            items.drop_first().push(x),
        ));
        assert(json_items(items.drop_first().push(x)) =~= json_items(items.drop_first()) + seq![
            ',',
        ] + quoted(x));
        assert(json_items(items) == quoted(items[0]) + seq![','] + json_items(
            items.drop_first(),
        ));
    }
}

/// Write the strings as a JSON array, in order.
pub fn to_json_array(items: &Vec<String>) -> (r: String)
    ensures
        r@ == json_array(items@.map_values(|s: String| s@)),
{
    proof {
        reveal_strlit("[");
        reveal_strlit("]");
        reveal_strlit(",");
        reveal_strlit("\"");
    }
    let ghost views = items@.map_values(|s: String| s@);
    let mut out = "[".to_owned();
    let mut k: usize = 0;
    while k < items.len()
        invariant
            k <= items@.len(),
            views == items@.map_values(|s: String| s@),
            out@ =~= seq!['['] + json_items(views.take(k as int)),
        decreases items@.len() - k,
    {
        proof {
            reveal_strlit("[");
            reveal_strlit("]");
            reveal_strlit(",");
            reveal_strlit("\"");
            lemma_json_items_push(views.take(k as int), views[k as int]);
            assert(views.take(k + 1) =~= views.take(k as int).push(views[k as int]));
        }
        if k > 0 {
            out.append(",");
        }
        out.append("\"");
        out.append(items[k].as_str());
        out.append("\"");
        proof {
            assert(out@ =~= seq!['['] + json_items(views.take(k + 1)));
        }
        k = k + 1;
    }
    out.append("]");
    proof {
        assert(views.take(views.len() as int) =~= views);
        assert(out@ =~= json_array(views));
    }
    out
}

/// The index just past the run of non-quote characters that starts at `i`.
pub open spec fn quote_run_end(s: Seq<char>, i: int) -> int
    decreases s.len() - i,
{
    if 0 <= i < s.len() && s[i] != '"' {
        quote_run_end(s, i + 1)
    } else {
        i
    }
}

/// Basic bounds of `quote_run_end`.
proof fn lemma_quote_run_end_props(s: Seq<char>, i: int)
    requires
        0 <= i <= s.len(),
    ensures
        i <= quote_run_end(s, i) <= s.len(),
        forall|t: int| i <= t < quote_run_end(s, i) ==> (#[trigger] s[t]) != '"',
        quote_run_end(s, i) == s.len() || s[quote_run_end(s, i)] == '"',
    decreases s.len() - i,
{
    if 0 <= i < s.len() && s[i] != '"' {
        lemma_quote_run_end_props(s, i + 1);
    }
}

/// Where a run of quote-free characters is known to stop, `quote_run_end`
/// stops there.
proof fn lemma_quote_run_concat(s: Seq<char>, i: int, k: int)
    requires
        0 <= i <= k <= s.len(),
        forall|t: int| i <= t < k ==> (#[trigger] s[t]) != '"',
        k == s.len() || s[k] == '"',
    ensures
        quote_run_end(s, i) == k,
    decreases k - i,
{
    if i < k {
        lemma_quote_run_concat(s, i + 1, k);
    }
}

/// One or more quoted items starting at `i`, separated by commas and
/// closed by the final `]`, which must end the text.
pub open spec fn spec_parse_items(s: Seq<char>, i: int) -> Option<Seq<Seq<char>>>
    decreases s.len() - i,
    via spec_parse_items_decreases
{
    if !(0 <= i < s.len() && s[i] == '"') {
        None
    } else {
        let e = quote_run_end(s, i + 1);
        if e >= s.len() {
            None
        } else {
            let item = s.subrange(i + 1, e);
            if e + 1 == s.len() - 1 && s[e + 1] == ']' {
                Some(seq![item])
            } else if e + 1 < s.len() && s[e + 1] == ',' {
                match spec_parse_items(s, e + 2) {
                    None => None,
                    Some(rest) => Some(seq![item] + rest),
                }
            } else {
                None
            }
        }
    }
}

#[via_fn]
proof fn spec_parse_items_decreases(s: Seq<char>, i: int) {
    if 0 <= i < s.len() && s[i] == '"' {
        lemma_quote_run_end_props(s, i + 1);
    }
}

/// The JSON array grammar the output uses: `[]`, or `[` then quoted items
/// separated by commas then `]`, nothing after; items hold no quote and no
/// escape sequences.
pub open spec fn spec_parse_json_array(s: Seq<char>) -> Option<Seq<Seq<char>>> {
    if s.len() >= 2 && s[0] == '[' {
        if s.len() == 2 && s[1] == ']' {
            Some(Seq::empty())
        } else {
            spec_parse_items(s, 1)
        }
    } else {
        None
    }
}

/// Read a JSON array of strings, exactly as `spec_parse_json_array`
/// describes the grammar.
pub fn parse_json_array(s: &str) -> (r: Option<Vec<String>>)
    ensures
        r is Some <==> spec_parse_json_array(s@) is Some,
        r matches Some(v) ==> spec_parse_json_array(s@) == Some(
            v@.map_values(|t: String| t@),
        ),
{
    let len = s.unicode_len();
    if len < 2 || s.get_char(0) != '[' {
        return None;
    }
    if len == 2 && s.get_char(1) == ']' {
        let empty: Vec<String> = Vec::new();
        proof {
            assert(empty@.map_values(|t: String| t@) =~= Seq::<Seq<char>>::empty());
        }
        return Some(empty);
    }
    let mut out: Vec<String> = Vec::new();
    let mut i: usize = 1;
    loop
        invariant
            1 <= i <= len,
            len == s@.len(),
            len >= 2,
            s@[0] == '[',
            !(len == 2 && s@[1] == ']'),
            (match spec_parse_items(s@, i as int) {
                Some(rest) => spec_parse_json_array(s@) == Some(
                    out@.map_values(|t: String| t@) + rest,
                ),
                None => spec_parse_json_array(s@) is None,
            }),
        decreases len - i,
    {
        if i >= len || s.get_char(i) != '"' {
            return None;
        }
        let mut e: usize = i + 1;
        while e < len && s.get_char(e) != '"'
            invariant
                i + 1 <= e <= len,
                len == s@.len(),
                forall|t: int| i + 1 <= t < e ==> (#[trigger] s@[t]) != '"',
            decreases len - e,
        {
            e = e + 1;
        }
        proof {
            lemma_quote_run_concat(s@, i + 1, e as int);
        }
        if e >= len {
            return None;
        }
        let item = s.substring_char(i + 1, e).to_owned();
        let ghost prev = out@.map_values(|t: String| t@);
        if e + 1 == len - 1 && s.get_char(e + 1) == ']' {
            out.push(item);
            proof {
                assert(out@.map_values(|t: String| t@) =~= prev + seq![
                    s@.subrange(i + 1, e as int),
                ]);
            }
            return Some(out);
        } else if e + 1 < len && s.get_char(e + 1) == ',' {
            out.push(item);
            proof {
                assert(out@.map_values(|t: String| t@) =~= prev + seq![
                    s@.subrange(i + 1, e as int),
                ]);
            }
            i = e + 2;
        } else {
            return None;
        }
    }
}

/// Parsing the printed items from position `i` yields the items back,
/// provided no item holds a quote character.
proof fn lemma_parse_items_round(s: Seq<char>, i: int, items: Seq<Seq<char>>)
    requires
        0 <= i <= s.len(),
        items.len() >= 1,
        forall|k: int, t: int|
            0 <= k < items.len() && 0 <= t < items[k].len() ==> #[trigger] items[k][t] != '"',
        s.subrange(i, s.len() as int) =~= json_items(items) + seq![']'],
    ensures
        spec_parse_items(s, i) == Some(items),
    decreases items.len(),
{
    let rest = s.subrange(i, s.len() as int);
    let l0 = items[0].len() as int;
    let q = quoted(items[0]);
    let ji = json_items(items);
    assert(q.len() == l0 + 2);
    if items.len() == 1 {
        assert(ji == q);
    } else {
        assert(ji == q + seq![','] + json_items(items.drop_first()));
    }
    assert(rest.len() == ji.len() + 1);
    assert forall|u: int| 0 <= u < q.len() implies (#[trigger] rest[u]) == q[u] by {
        assert(rest[u] == ji[u]);
        assert(ji[u] == q[u]);
    }
    assert(q[0] == '"');
    assert(forall|u: int| 1 <= u <= l0 ==> (#[trigger] q[u]) == items[0][u - 1]);
    assert(q[l0 + 1] == '"');
    assert(s[i] == rest[0]);
    assert(s[i] == '"');
    assert forall|t: int| i + 1 <= t < i + 1 + l0 implies (#[trigger] s[t]) != '"' by {
        assert(rest[t - i] == q[t - i]);
        assert(q[t - i] == items[0][t - i - 1]);
        assert(s[t] == rest[t - i]);
        assert(items[0][t - i - 1] != '"');
    }
    assert(s[i + 1 + l0] == rest[1 + l0]);
    assert(s[i + 1 + l0] == '"');
    lemma_quote_run_concat(s, i + 1, i + 1 + l0);
    let e = i + 1 + l0;
    assert(e < s.len());
    assert forall|u: int| 0 <= u < l0 implies (#[trigger] s.subrange(i + 1, e)[u]) == items[0][u] by {
        assert(s.subrange(i + 1, e)[u] == s[i + 1 + u]);
        assert(s[i + 1 + u] == rest[1 + u]);
        assert(rest[1 + u] == q[1 + u]);
        assert(q[1 + u] == items[0][u]);
    }
    assert(s.subrange(i + 1, e) =~= items[0]);
    if items.len() == 1 {
        assert(json_items(items) == quoted(items[0]));
        assert(rest.len() == l0 + 3);
        assert(e + 1 == s.len() - 1);
        assert(rest[l0 + 2] == ']');
        assert(s[e + 1] == ']');
        assert(spec_parse_items(s, i) == Some(seq![items[0]]));
        assert(seq![items[0]] =~= items);
    } else {
        assert(json_items(items) == quoted(items[0]) + seq![','] + json_items(
            items.drop_first(),
        ));
        assert(rest[l0 + 2] == ',');
        assert(s[e + 1] == ',');
        assert(e + 1 < s.len());
        assert(e + 1 != s.len() - 1) by {
            assert(rest[rest.len() - 1] == ']');
        }
        assert forall|k: int, t: int|
            0 <= k < items.drop_first().len() && 0 <= t < items.drop_first()[k].len() implies
            #[trigger] items.drop_first()[k][t] != '"' by {
            assert(items.drop_first()[k] == items[k + 1]);
            assert(items[k + 1][t] != '"');
        }
        assert(s.subrange(e + 2, s.len() as int) =~= json_items(items.drop_first()) + seq![
            ']',
        ]) by {
            let tail = json_items(items.drop_first()) + seq![']'];
            assert forall|t: int| 0 <= t < tail.len() implies s[e + 2 + t] == tail[t] by {
                assert(rest[l0 + 3 + t] == tail[t]);
            }
        }
        lemma_parse_items_round(s, e + 2, items.drop_first());
        assert(spec_parse_items(s, i) == Some(seq![items[0]] + items.drop_first()));
        assert(seq![items[0]] + items.drop_first() =~= items);
    }
}

/// Round trip of the output format: the array printed for any items that
/// hold no quote character parses back to exactly those items.
pub proof fn lemma_json_round_trip(items: Seq<Seq<char>>)
    requires
        forall|k: int, t: int|
            0 <= k < items.len() && 0 <= t < items[k].len() ==> #[trigger] items[k][t] != '"',
    ensures
        spec_parse_json_array(json_array(items)) == Some(items),
{
    let s = json_array(items);
    assert(s[0] == '[');
    assert(s[s.len() - 1] == ']');
    if items.len() == 0 {
        assert(json_items(items) == Seq::<char>::empty());
        assert(s.len() == 2);
        assert(s[1] == ']');
        assert(items =~= Seq::<Seq<char>>::empty());
    } else {
        assert(quoted(items[0]).len() >= 2);
        assert(json_items(items).len() >= 2) by {
            if items.len() > 1 {
                assert(json_items(items).len() >= quoted(items[0]).len());
            }
        }
        assert(s.len() > 2);
        assert(s.subrange(1, s.len() as int) =~= json_items(items) + seq![']']);
        lemma_parse_items_round(s, 1, items);
    }
}

/// The printed texts of the subnets, in order.
pub open spec fn subnet_texts(subnets: Seq<Ipv4Cidr>) -> Seq<Seq<char>> {
    subnets.map_values(|c: Ipv4Cidr| spec_cidr_text(c.addr, c.prefix))
}

/// A subnet's text holds no quote character.
proof fn lemma_cidr_text_quote_free(addr: u32, prefix: u8)
    ensures
        forall|t: int|
            0 <= t < spec_cidr_text(addr, prefix).len() ==> (#[trigger] spec_cidr_text(
                addr,
                prefix,
            )[t]) != '"',
{
    lemma_dec_seq_props(byte0(addr));
    lemma_dec_seq_props(byte1(addr));
    lemma_dec_seq_props(byte2(addr));
    lemma_dec_seq_props(byte3(addr));
    lemma_dec_seq_props(prefix as nat);
    assert forall|t: int| 0 <= t < spec_cidr_text(addr, prefix).len() implies (
    #[trigger] spec_cidr_text(addr, prefix)[t]) != '"' by {
        let c = spec_cidr_text(addr, prefix)[t];
        assert(is_digit(c) || c == '.' || c == '/');
    }
}

/// Write the matched subnets as the discovery output: a JSON array of
/// their canonical texts, in discovery order.
pub fn serialize_subnets(subnets: &Vec<Ipv4Cidr>) -> (r: String)
    ensures
        r@ == json_array(subnet_texts(subnets@)),
{
    let mut texts: Vec<String> = Vec::new();
    let mut k: usize = 0;
    while k < subnets.len()
        invariant
            k <= subnets@.len(),
            texts@.len() == k,
            forall|t: int|
                0 <= t < k ==> (#[trigger] texts@[t])@ == spec_cidr_text(
                    subnets@[t].addr,
                    subnets@[t].prefix,
                ),
        decreases subnets@.len() - k,
    {
        texts.push(format_cidr(&subnets[k]));
        k = k + 1;
    }
    let r = to_json_array(&texts);
    proof {
        assert(texts@.map_values(|s: String| s@) =~= subnet_texts(subnets@));
    }
    r
}

/// The subnets read from a sequence of their texts; fails on the first
/// text that is no CIDR.
pub open spec fn spec_parse_texts(texts: Seq<Seq<char>>) -> Option<Seq<Ipv4Cidr>>
    decreases texts.len(),
{
    if texts.len() == 0 {
        Some(Seq::empty())
    } else {
        match spec_parse_cidr(texts[0]) {
            None => None,
            Some(c) => match spec_parse_texts(texts.drop_first()) {
                None => None,
                Some(rest) => Some(seq![c] + rest),
            },
        }
    }
}

/// The discovery output read back: the JSON array, then each text as a
/// CIDR subnet.
pub open spec fn spec_parse_subnets(s: Seq<char>) -> Option<Seq<Ipv4Cidr>> {
    match spec_parse_json_array(s) {
        None => None,
        Some(texts) => spec_parse_texts(texts),
    }
}

/// Read a discovery output back into subnets, exactly as
/// `spec_parse_subnets` describes it.
pub fn parse_subnets(s: &str) -> (r: Option<Vec<Ipv4Cidr>>)
    ensures
        r is Some <==> spec_parse_subnets(s@) is Some,
        r matches Some(v) ==> spec_parse_subnets(s@) == Some(v@),
{
    let texts = match parse_json_array(s) {
        Some(t) => t,
        None => {
            return None;
        },
    };
    let ghost tviews = texts@.map_values(|t: String| t@);
    let mut out: Vec<Ipv4Cidr> = Vec::new();
    proof {
        assert(tviews.skip(0) =~= tviews);
        if spec_parse_texts(tviews) is Some {
            assert(out@ + spec_parse_texts(tviews).unwrap() =~= spec_parse_texts(
                tviews,
            ).unwrap());
        }
    }
    let mut k: usize = 0;
    while k < texts.len()
        invariant
            k <= texts@.len(),
            tviews == texts@.map_values(|t: String| t@),
            spec_parse_json_array(s@) == Some(tviews),
            out@.len() == k,
            (match spec_parse_texts(tviews.skip(k as int)) {
                Some(rest) => spec_parse_texts(tviews) == Some(out@ + rest),
                None => spec_parse_texts(tviews) is None,
            }),
        decreases texts@.len() - k,
    {
        let ghost rest = tviews.skip(k as int);
        proof {
            assert(rest[0] == tviews[k as int]);
            assert(rest.drop_first() =~= tviews.skip(k + 1));
        }
        match parse_cidr(texts[k].as_str()) {
            Ok(c) => {
                let ghost prev = out@;
                out.push(c);
                proof {
                    assert(spec_parse_cidr(tviews[k as int]) == Some(c));
                    if spec_parse_texts(tviews.skip(k + 1)) is Some {
                        let tail = spec_parse_texts(tviews.skip(k + 1)).unwrap();
                        assert(spec_parse_texts(rest) == Some(seq![c] + tail));
                        assert(prev + (seq![c] + tail) =~= out@ + tail);
                    }
                }
            },
            Err(_) => {
                proof {
                    assert(spec_parse_cidr(tviews[k as int]) is None);
                    assert(spec_parse_texts(rest) is None);
                }
                return None;
            },
        }
        k = k + 1;
    }
    proof {
        assert(tviews.skip(tviews.len() as int) =~= Seq::<Seq<char>>::empty());
        assert(spec_parse_texts(tviews.skip(tviews.len() as int)) == Some(
            Seq::<Ipv4Cidr>::empty(),
        ));
        assert(out@ + Seq::<Ipv4Cidr>::empty() =~= out@);
    }
    Some(out)
}

/// The texts of well-formed subnets parse back to those subnets.
proof fn lemma_parse_texts_round(subnets: Seq<Ipv4Cidr>)
    requires
        forall|k: int| 0 <= k < subnets.len() ==> (#[trigger] subnets[k]).well_formed(),
    ensures
        spec_parse_texts(subnet_texts(subnets)) == Some(subnets),
    decreases subnets.len(),
{
    let texts = subnet_texts(subnets);
    if subnets.len() == 0 {
        assert(subnets =~= Seq::<Ipv4Cidr>::empty());
    } else {
        lemma_cidr_text_parses(subnets[0]);
        assert(texts[0] == spec_cidr_text(subnets[0].addr, subnets[0].prefix));
        assert(spec_parse_cidr(texts[0]) == Some(subnets[0]));
        assert(texts.drop_first() =~= subnet_texts(subnets.drop_first()));
        assert forall|k: int|
            0 <= k < subnets.drop_first().len() implies (#[trigger] subnets.drop_first()[
        k]).well_formed() by {
            assert(subnets.drop_first()[k] == subnets[k + 1]);
        }
        lemma_parse_texts_round(subnets.drop_first());
        assert(seq![subnets[0]] + subnets.drop_first() =~= subnets);
    }
}

/// Round trip of the discovery output: the serialized form of any list of
/// well-formed subnets parses back to exactly that list — the same
/// subnets, in the same order, so in particular an equal set.
pub proof fn lemma_discovery_output_round_trip(subnets: Seq<Ipv4Cidr>)
    requires
        forall|k: int| 0 <= k < subnets.len() ==> (#[trigger] subnets[k]).well_formed(),
    ensures
        spec_parse_subnets(json_array(subnet_texts(subnets))) == Some(subnets),
{
    let texts = subnet_texts(subnets);
    assert forall|k: int, t: int|
        0 <= k < texts.len() && 0 <= t < texts[k].len() implies #[trigger] texts[k][t]
        != '"' by {
        lemma_cidr_text_quote_free(subnets[k].addr, subnets[k].prefix);
    }
    lemma_json_round_trip(texts);
    lemma_parse_texts_round(subnets);
}

} // verus!
