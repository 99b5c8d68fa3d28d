//! The IPv4 CIDR subnet model: a network address plus prefix length, kept in
//! canonical form (host bits zero), with containment, ordering, and the
//! textual `a.b.c.d/p` form read and written against one grammar.

use vstd::prelude::*;
use vstd::arithmetic::power2::{pow2, lemma2_to64, lemma_pow2_pos, lemma_pow2_strictly_increases};
use vstd::arithmetic::div_mod::{
    lemma_fundamental_div_mod, lemma_mod_multiples_basic, lemma_mod_division_less_than_divisor,
    lemma_div_denominator, lemma_mod_mod,
};
use vstd::string::*;
use crate::errors::RouterError;

verus! {

/// An IPv4 CIDR subnet: a 32-bit network address and a prefix length.
///
/// A value is canonical (`well_formed`) when the prefix is at most 32 and
/// every bit outside the prefix is zero; catalog entries and matched results
/// are kept canonical, and equality is structural equality of the two fields.
#[derive(Clone, Copy, PartialEq, Eq, Structural, Debug)]
pub struct Ipv4Cidr {
    pub addr: u32,
    pub prefix: u8,
}

/// The number of addresses a prefix of the given length spans.
pub open spec fn block_width(prefix: u8) -> nat {
    pow2((32 - prefix) as nat)
}

impl Ipv4Cidr {
    /// Canonical form: prefix at most 32, host bits all zero.
    pub open spec fn well_formed(self) -> bool {
        self.prefix <= 32 && (self.addr as nat) % block_width(self.prefix) == 0
    }

    /// The address `ip` falls inside this subnet's network range.
    pub open spec fn spec_contains(self, ip: u32) -> bool {
        self.addr <= ip < self.addr + block_width(self.prefix)
    }

    /// Containment test, exact against `spec_contains`; a `/32` subnet
    /// contains exactly its own address, a `/0` subnet every address.
    pub fn contains(&self, ip: u32) -> (r: bool)
        requires
            self.well_formed(),
        ensures
            r == self.spec_contains(ip),
    {
        let shift: u64 = (32 - self.prefix) as u64;
        proof {
            lemma2_to64();
            if shift < 32 {
                lemma_pow2_strictly_increases(shift as nat, 32);
            }
            vstd::bits::lemma_u64_shl_is_mul(1u64, shift);
        }
        let width: u64 = 1u64 << shift;
        (ip as u64) >= (self.addr as u64) && (ip as u64) < (self.addr as u64) + width
    }

    /// Strict ordering over the canonical representation: by network
    /// address, then by prefix length.
    pub open spec fn spec_lt(self, other: Ipv4Cidr) -> bool {
        self.addr < other.addr || (self.addr == other.addr && self.prefix < other.prefix)
    }

    /// Comparison used to keep catalogs sorted; exact against `spec_lt`.
    pub fn lt(&self, other: &Ipv4Cidr) -> (r: bool)
        ensures
            r == self.spec_lt(*other),
    {
        self.addr < other.addr || (self.addr == other.addr && self.prefix < other.prefix)
    }
}

/// The canonical subnet obtained by zeroing the host bits of `addr`.
pub open spec fn spec_truncate(addr: u32, prefix: u8) -> Ipv4Cidr {
    Ipv4Cidr {
        addr: (addr - ((addr as nat) % block_width(prefix))) as u32,
        prefix,
    }
}

/// Zero the host bits of `addr`, yielding the canonical subnet of the given
/// prefix length that contains it.
pub fn truncate(addr: u32, prefix: u8) -> (r: Ipv4Cidr)
    requires
        prefix <= 32,
    ensures
        r == spec_truncate(addr, prefix),
        r.well_formed(),
        r.spec_contains(addr),
{
    let shift: u64 = (32 - prefix) as u64;
    proof {
        lemma2_to64();
        if shift < 32 {
            lemma_pow2_strictly_increases(shift as nat, 32);
        }
        vstd::bits::lemma_u64_shl_is_mul(1u64, shift);
    }
    let width: u64 = 1u64 << shift;
    let rem: u64 = (addr as u64) % width;
    proof {
        let w = width as int;
        lemma_fundamental_div_mod(addr as int, w);
        lemma_mod_multiples_basic((addr as int) / w, w);
        lemma_mod_division_less_than_divisor(addr as int, w);
        vstd::arithmetic::mul::lemma_mul_nonnegative(w, (addr as int) / w);
        vstd::arithmetic::mul::lemma_mul_is_commutative(w, (addr as int) / w);
        assert((addr as int) - ((addr as nat) % block_width(prefix)) == ((addr as int) / w) * w);
    }
    let base: u32 = ((addr as u64) - rem) as u32;
    Ipv4Cidr { addr: base, prefix }
}

/// Decimal digit characters.
pub open spec fn is_digit(c: char) -> bool {
    '0' <= c && c <= '9'
}

/// The numeric value of a digit character.
pub open spec fn digit_val(c: char) -> nat {
    ((c as u32) - 48) as nat
}

/// The digit character of a value below ten.
pub open spec fn digit_char(d: nat) -> char {
    ((d + 48) as u8) as char
}

/// Every character of `s` is a decimal digit.
pub open spec fn all_digits(s: Seq<char>) -> bool {
    forall|t: int| 0 <= t < s.len() ==> is_digit(#[trigger] s[t])
}

/// The decimal text of `n`: no sign, no leading zero.
pub open spec fn dec_seq(n: nat) -> Seq<char>
    decreases n,
{
    if n < 10 {
        seq![digit_char(n)]
    } else {
        dec_seq(n / 10).push(digit_char(n % 10))
    }
}

/// The value of a digit string read as a decimal number.
pub open spec fn dec_val(s: Seq<char>) -> nat
    decreases s.len(),
{
    if s.len() == 0 {
        0
    } else {
        dec_val(s.drop_last()) * 10 + digit_val(s.last())
    }
}

/// The index just past the run of digits that starts at `i`.
pub open spec fn digit_run_end(s: Seq<char>, i: int) -> int
    decreases s.len() - i,
{
    if 0 <= i < s.len() && is_digit(s[i]) {
        digit_run_end(s, i + 1)
    } else {
        i
    }
}

/// The decimal text of a number is nonempty, all digits, has no leading
/// zero, and reads back as that number.
pub proof fn lemma_dec_seq_props(n: nat)
    ensures
        dec_seq(n).len() >= 1,
        all_digits(dec_seq(n)),
        dec_seq(n).len() > 1 ==> dec_seq(n)[0] != '0',
        dec_val(dec_seq(n)) == n,
        n < 10 ==> dec_seq(n).len() == 1,
        n < 100 ==> dec_seq(n).len() <= 2,
        n < 1000 ==> dec_seq(n).len() <= 3,
        n >= 10 ==> dec_seq(n).len() >= 2,
    decreases n,
{
    if n < 10 {
        assert(dec_seq(n) =~= seq![digit_char(n)]);
        assert(is_digit(digit_char(n)));
        assert(dec_val(dec_seq(n)) == n) by {
            let w = dec_seq(n);
            assert(w.drop_last() =~= Seq::<char>::empty());
            assert(dec_val(Seq::<char>::empty()) == 0);
            assert(w.last() == digit_char(n));
            assert(dec_val(w) == dec_val(w.drop_last()) * 10 + digit_val(w.last()));
            assert(digit_val(digit_char(n)) == n);
        }
    } else {
        lemma_dec_seq_props(n / 10);
        let s = dec_seq(n / 10);
        let w = s.push(digit_char(n % 10));
        assert(dec_seq(n) == w);
        assert(w.drop_last() =~= s);
        assert(w.last() == digit_char(n % 10));
        assert(is_digit(digit_char(n % 10)));
        assert(w[0] == s[0]);
        assert(n / 10 >= 1);
        if s.len() == 1 {
            assert(n / 10 < 10);
            assert(dec_seq(n / 10) =~= seq![digit_char(n / 10)]);
            assert(s[0] == digit_char(n / 10));
            assert(digit_val(s[0]) == n / 10);
        }
        assert(w[0] != '0');
        assert(dec_val(w) == dec_val(s) * 10 + digit_val(digit_char(n % 10)));
        lemma_fundamental_div_mod(n as int, 10);
    }
}

/// Lower bounds on the value of a digit string without a leading zero.
pub proof fn lemma_dec_val_lower(s: Seq<char>)
    requires
        all_digits(s),
        s.len() >= 1,
        s[0] != '0',
    ensures
        dec_val(s) >= 1,
        s.len() >= 2 ==> dec_val(s) >= 10,
        s.len() >= 3 ==> dec_val(s) >= 100,
        s.len() >= 4 ==> dec_val(s) >= 1000,
    decreases s.len(),
{
    if s.len() == 1 {
        assert(s.drop_last() =~= Seq::<char>::empty());
        assert(dec_val(Seq::<char>::empty()) == 0);
        assert(s.last() == s[0]);
        assert(dec_val(s) == dec_val(s.drop_last()) * 10 + digit_val(s.last()));
        assert(is_digit(s[0]) && s[0] != '0');
        assert(digit_val(s[0]) >= 1);
    } else {
        let d = s.drop_last();
        assert(d[0] == s[0]);
        assert(all_digits(d));
        lemma_dec_val_lower(d);
        assert(dec_val(s) == dec_val(d) * 10 + digit_val(s.last()));
    }
}

/// Upper bounds on the value of a short digit string.
pub proof fn lemma_dec_val_upper(s: Seq<char>)
    requires
        all_digits(s),
    ensures
        s.len() <= 1 ==> dec_val(s) <= 9,
        s.len() <= 2 ==> dec_val(s) <= 99,
        s.len() <= 3 ==> dec_val(s) <= 999,
    decreases s.len(),
{
    if s.len() == 0 {
    } else {
        let d = s.drop_last();
        assert(all_digits(d));
        lemma_dec_val_upper(d);
        assert(is_digit(s.last()));
        assert(digit_val(s.last()) <= 9);
        assert(dec_val(s) == dec_val(d) * 10 + digit_val(s.last()));
    }
}

/// Where a run of digits is known to stop, `digit_run_end` stops there.
pub proof fn lemma_digit_run_concat(s: Seq<char>, i: int, k: int)
    requires
        0 <= i <= k <= s.len(),
        forall|t: int| i <= t < k ==> is_digit(#[trigger] s[t]),
        k == s.len() || !is_digit(s[k]),
    ensures
        digit_run_end(s, i) == k,
    decreases k - i,
{
    if i == k {
    } else {
        lemma_digit_run_concat(s, i + 1, k);
    }
}

/// One decimal field of the CIDR grammar, read at position `i`: a nonempty
/// digit run, no leading zero, value at most `max`; yields the value and the
/// position just past the run.
pub open spec fn spec_parse_dec(s: Seq<char>, i: int, max: nat) -> Option<(nat, int)> {
    let e = digit_run_end(s, i);
    if e == i {
        None
    } else if e - i > 1 && s[i] == '0' {
        None
    } else if dec_val(s.subrange(i, e)) > max {
        None
    } else {
        Some((dec_val(s.subrange(i, e)), e))
    }
}

/// The address with the four given octet values.
pub open spec fn octets_to_addr(b0: nat, b1: nat, b2: nat, b3: nat) -> u32 {
    (b0 * 0x1000000 + b1 * 0x10000 + b2 * 0x100 + b3) as u32
}

/// The CIDR grammar: `a.b.c.d/p`, each octet a decimal number up to 255
/// without a leading zero, the prefix length up to 32, nothing after it.
/// The value is canonicalized: host bits of the address are zeroed.
pub open spec fn spec_parse_cidr(s: Seq<char>) -> Option<Ipv4Cidr> {
    match spec_parse_dec(s, 0, 255) {
        None => None,
        Some((b0, i0)) => if !(i0 < s.len() && s[i0] == '.') {
            None
        } else {
            match spec_parse_dec(s, i0 + 1, 255) {
                None => None,
                Some((b1, i1)) => if !(i1 < s.len() && s[i1] == '.') {
                    None
                } else {
                    match spec_parse_dec(s, i1 + 1, 255) {
                        None => None,
                        Some((b2, i2)) => if !(i2 < s.len() && s[i2] == '.') {
                            None
                        } else {
                            match spec_parse_dec(s, i2 + 1, 255) {
                                None => None,
                                Some((b3, i3)) => if !(i3 < s.len() && s[i3] == '/') {
                                    None
                                } else {
                                    match spec_parse_dec(s, i3 + 1, 32) {
                                        None => None,
                                        Some((p, i4)) => if i4 != s.len() {
                                            None
                                        } else {
                                            Some(spec_truncate(octets_to_addr(b0, b1, b2, b3), p as u8))
                                        },
                                    }
                                },
                            }
                        },
                    }
                },
            }
        },
    }
}

/// Digit test; exact against `is_digit`.
fn is_digit_exec(c: char) -> (r: bool)
    ensures
        r == is_digit(c),
{
    '0' <= c && c <= '9'
}

/// One decimal field at `start`, as `spec_parse_dec` describes it.
fn parse_dec_field(s: &str, start: usize, max: u32) -> (r: Option<(u32, usize)>)
    requires
        start <= s@.len(),
        max <= 999,
    ensures
        r is Some <==> spec_parse_dec(s@, start as int, max as nat) is Some,
        r matches Some(f) ==> spec_parse_dec(s@, start as int, max as nat) == Some(
            (f.0 as nat, f.1 as int),
        ),
{
    let len = s.unicode_len();
    let mut e = start;
    while e < len && is_digit_exec(s.get_char(e))
        invariant
            start <= e <= len,
            len == s@.len(),
            forall|t: int| start <= t < e ==> is_digit(#[trigger] s@[t]),
        decreases len - e,
    {
        e = e + 1;
    }
    proof {
        lemma_digit_run_concat(s@, start as int, e as int);
    }
    if e == start {
        return None;
    }
    if e - start > 1 && s.get_char(start) == '0' {
        return None;
    }
    if e - start > 3 {
        proof {
            lemma_dec_val_lower(s@.subrange(start as int, e as int));
        }
        return None;
    }
    let mut v: u32 = 0;
    let mut j = start;
    while j < e
        invariant
            start <= j <= e <= s@.len(),
            e - start <= 3,
            forall|t: int| start <= t < e ==> is_digit(#[trigger] s@[t]),
            v == dec_val(s@.subrange(start as int, j as int)),
        decreases e - j,
    {
        proof {
            lemma_dec_val_upper(s@.subrange(start as int, j as int));
            let sub1 = s@.subrange(start as int, j + 1);
            assert(sub1.drop_last() =~= s@.subrange(start as int, j as int));
            assert(sub1.last() == s@[j as int]);
        }
        let c = s.get_char(j);
        let d: u32 = (c as u32) - 48;
        v = v * 10 + d;
        j = j + 1;
    }
    if v > max {
        return None;
    }
    Some((v, e))
}

/// Read a CIDR subnet from its text, exactly as `spec_parse_cidr` describes
/// the grammar; on malformed text the error carries the whole input.
pub fn parse_cidr(s: &str) -> (r: Result<Ipv4Cidr, RouterError>)
    ensures
        r is Ok <==> spec_parse_cidr(s@) is Some,
        r is Ok ==> spec_parse_cidr(s@) == Some(r->Ok_0),
        r is Err ==> (r->Err_0 matches RouterError::Parse(t) && t@ == s@),
{
    let len = s.unicode_len();
    let f0 = parse_dec_field(s, 0, 255);
    if let Some((b0, i0)) = f0 {
        if i0 < len && s.get_char(i0) == '.' {
            let f1 = parse_dec_field(s, i0 + 1, 255);
            if let Some((b1, i1)) = f1 {
                if i1 < len && s.get_char(i1) == '.' {
                    let f2 = parse_dec_field(s, i1 + 1, 255);
                    if let Some((b2, i2)) = f2 {
                        if i2 < len && s.get_char(i2) == '.' {
                            let f3 = parse_dec_field(s, i2 + 1, 255);
                            if let Some((b3, i3)) = f3 {
                                if i3 < len && s.get_char(i3) == '/' {
                                    let fp = parse_dec_field(s, i3 + 1, 32);
                                    if let Some((p, i4)) = fp {
                                        if i4 == len {
                                            let addr: u32 = b0 * 0x1000000 + b1 * 0x10000 + b2
                                                * 0x100 + b3;
                                            return Ok(truncate(addr, p as u8));
                                        }
                                    }
                                }
                            }
                        }
                    }
                }
            }
        }
    }
    Err(RouterError::Parse(s.to_owned()))
}

/// The four octet values of an address, most significant first.
pub open spec fn byte0(addr: u32) -> nat {
    (addr as nat) / 0x1000000
}

/// Second octet value of an address.
pub open spec fn byte1(addr: u32) -> nat {
    ((addr as nat) % 0x1000000) / 0x10000
}

/// Third octet value of an address.
pub open spec fn byte2(addr: u32) -> nat {
    ((addr as nat) % 0x10000) / 0x100
}

/// Last octet value of an address.
pub open spec fn byte3(addr: u32) -> nat {
    (addr as nat) % 0x100
}

/// The canonical text of a subnet: dotted decimal octets, a slash, and the
/// prefix length, with no leading zeros anywhere.
pub open spec fn spec_cidr_text(addr: u32, prefix: u8) -> Seq<char> {
    dec_seq(byte0(addr)) + seq!['.'] + dec_seq(byte1(addr)) + seq!['.'] + dec_seq(byte2(addr))
        + seq!['.'] + dec_seq(byte3(addr)) + seq!['/'] + dec_seq(prefix as nat)
}

/// The one-character text of a digit value.
fn digit_str(d: u32) -> (r: &'static str)
    requires
        d <= 9,
    ensures
        r@ =~= seq![digit_char(d as nat)],
{
    proof {
        reveal_strlit("0");
        reveal_strlit("1");
        reveal_strlit("2");
        reveal_strlit("3");
        reveal_strlit("4");
        reveal_strlit("5");
        reveal_strlit("6");
        reveal_strlit("7");
        reveal_strlit("8");
        reveal_strlit("9");
    }
    if d == 0 {
        "0"
    } else if d == 1 {
        "1"
    } else if d == 2 {
        "2"
    } else if d == 3 {
        "3"
    } else if d == 4 {
        "4"
    } else if d == 5 {
        "5"
    } else if d == 6 {
        "6"
    } else if d == 7 {
        "7"
    } else if d == 8 {
        "8"
    } else {
        "9"
    }
}

/// Append the decimal text of `n` to `out`.
fn push_dec(out: &mut String, n: u32)
    requires
        n <= 999,
    ensures
        final(out)@ == old(out)@ + dec_seq(n as nat),
{
    proof {
        vstd::arithmetic::div_mod::lemma_div_denominator(n as int, 10, 10);
        if n < 100 {
            vstd::arithmetic::div_mod::lemma_small_mod((n / 10) as nat, 10);
        }
        if n < 10 {
            vstd::arithmetic::div_mod::lemma_small_mod(n as nat, 10);
        }
    }
    if n >= 100 {
        out.append(digit_str(n / 100));
    }
    if n >= 10 {
        out.append(digit_str((n / 10) % 10));
    }
    out.append(digit_str(n % 10));
    proof {
        let m = n as nat;
        if m < 10 {
            assert(dec_seq(m) =~= seq![digit_char(m)]);
        } else if m < 100 {
            assert(dec_seq(m) == dec_seq(m / 10).push(digit_char(m % 10)));
            assert(dec_seq(m / 10) =~= seq![digit_char(m / 10)]);
            assert(final(out)@ =~= old(out)@ + dec_seq(m));
        } else {
            assert(dec_seq(m) == dec_seq(m / 10).push(digit_char(m % 10)));
            assert(m / 10 >= 10);
            assert(dec_seq(m / 10) == dec_seq(m / 10 / 10).push(digit_char(m / 10 % 10)));
            assert(m / 10 / 10 == m / 100);
            assert(dec_seq(m / 100) =~= seq![digit_char(m / 100)]);
            assert(final(out)@ =~= old(out)@ + dec_seq(m));
        }
        assert(final(out)@ =~= old(out)@ + dec_seq(m));
    }
}

/// Write a subnet in its canonical text form `a.b.c.d/p`.
pub fn format_cidr(c: &Ipv4Cidr) -> (r: String)
    ensures
        r@ == spec_cidr_text(c.addr, c.prefix),
{
    proof {
        reveal_strlit(".");
        reveal_strlit("/");
        assert((c.addr as nat) / 0x1000000 <= 255) by (nonlinear_arith)
            requires
                c.addr <= 0xFFFFFFFFu32,
        ;
        assert(((c.addr as nat) % 0x1000000) / 0x10000 <= 255) by (nonlinear_arith);
        assert(((c.addr as nat) % 0x10000) / 0x100 <= 255) by (nonlinear_arith);
        assert((c.addr as nat) % 0x100 <= 255) by (nonlinear_arith);
    }
    let mut out = String::new();
    push_dec(&mut out, c.addr / 0x1000000);
    out.append(".");
    push_dec(&mut out, (c.addr % 0x1000000) / 0x10000);
    out.append(".");
    push_dec(&mut out, (c.addr % 0x10000) / 0x100);
    out.append(".");
    push_dec(&mut out, c.addr % 0x100);
    out.append("/");
    push_dec(&mut out, c.prefix as u32);
    proof {
        assert(out@ =~= spec_cidr_text(c.addr, c.prefix));
    }
    out
}

/// Parsing one decimal field out of a longer text whose run of digits is a
/// known block `d` at offset `o`, stopped by a non-digit (or the end).
proof fn lemma_parse_dec_at(s: Seq<char>, o: int, d: Seq<char>, v: nat, max: nat)
    requires
        0 <= o,
        o + d.len() <= s.len(),
        s.subrange(o, o + d.len() as int) =~= d,
        all_digits(d),
        d.len() >= 1,
        d.len() > 1 ==> d[0] != '0',
        dec_val(d) == v,
        v <= max,
        o + d.len() == s.len() || !is_digit(s[o + d.len()]),
    ensures
        spec_parse_dec(s, o, max) == Some((v, o + d.len() as int)),
{
    let e = o + d.len() as int;
    assert forall|t: int| o <= t < e implies is_digit(#[trigger] s[t]) by {
        assert(s[t] == d[t - o]);
    }
    lemma_digit_run_concat(s, o, e);
    assert(s[o] == d[0]);
}

/// Round trip: the canonical text of a well-formed subnet parses back to
/// exactly that subnet.
pub proof fn lemma_cidr_text_parses(c: Ipv4Cidr)
    requires
        c.well_formed(),
    ensures
        spec_parse_cidr(spec_cidr_text(c.addr, c.prefix)) == Some(c),
{
    let a = c.addr as nat;
    let b0 = byte0(c.addr);
    let b1 = byte1(c.addr);
    let b2 = byte2(c.addr);
    let b3 = byte3(c.addr);
    let p = c.prefix as nat;
    assert(b0 <= 255) by (nonlinear_arith)
        requires
            a < 0x100000000,
            b0 == a / 0x1000000,
    ;
    assert(b1 <= 255 && b2 <= 255 && b3 <= 255) by (nonlinear_arith)
        requires
            b1 == (a % 0x1000000) / 0x10000,
            b2 == (a % 0x10000) / 0x100,
            b3 == a % 0x100,
    ;
    lemma_dec_seq_props(b0);
    lemma_dec_seq_props(b1);
    lemma_dec_seq_props(b2);
    lemma_dec_seq_props(b3);
    lemma_dec_seq_props(p);
    let d0 = dec_seq(b0);
    let d1 = dec_seq(b1);
    let d2 = dec_seq(b2);
    let d3 = dec_seq(b3);
    let dp = dec_seq(p);
    let s = spec_cidr_text(c.addr, c.prefix);
    let e0 = d0.len() as int;
    let o1 = e0 + 1;
    let e1 = o1 + d1.len();
    let o2 = e1 + 1;
    let e2 = o2 + d2.len();
    let o3 = e2 + 1;
    let e3 = o3 + d3.len();
    let o4 = e3 + 1;
    let e4 = o4 + dp.len();
    assert(s.len() == e4);
    assert(s.subrange(0, e0) =~= d0);
    assert(s[e0] == '.');
    assert(s.subrange(o1, e1) =~= d1);
    assert(s[e1] == '.');
    assert(s.subrange(o2, e2) =~= d2);
    assert(s[e2] == '.');
    assert(s.subrange(o3, e3) =~= d3);
    assert(s[e3] == '/');
    assert(s.subrange(o4, e4) =~= dp);
    assert(!is_digit('.'));
    assert(!is_digit('/'));
    lemma_parse_dec_at(s, 0, d0, b0, 255);
    lemma_parse_dec_at(s, o1, d1, b1, 255);
    lemma_parse_dec_at(s, o2, d2, b2, 255);
    lemma_parse_dec_at(s, o3, d3, b3, 255);
    lemma_parse_dec_at(s, o4, dp, p, 32);
    assert(octets_to_addr(b0, b1, b2, b3) == c.addr) by {
        lemma_fundamental_div_mod(a as int, 0x1000000);
        lemma_fundamental_div_mod((a % 0x1000000) as int, 0x10000);
        lemma_mod_mod(a as int, 0x10000, 0x100);
        lemma_fundamental_div_mod((a % 0x10000) as int, 0x100);
        lemma_mod_mod(a as int, 0x100, 0x100);
    }
    assert(spec_truncate(c.addr, c.prefix) == c);
    assert(spec_parse_cidr(s) == Some(c));
}

} // verus!
