//! Strict IPv4 literals: parsing of dotted-quad strings and the
//! canonical decimal form. A valid literal has exactly four octets,
//! each one to three decimal digits with no leading zero and a value
//! of at most 255; the canonical form of every address re-parses to
//! the same address.

use vstd::prelude::*;
use crate::text::{
    is_dec_digit, dec_digit_val, dec_digit_char, spec_split, dec_digit_exec, is_dec_digit_exec,
    dec_digit_val_exec, push_char, split_char, lemma_split_whole, lemma_split_concat,
};

verus! {

/// An IPv4 address as its four octets.
#[derive(Debug, Clone, Copy, PartialEq, Eq, Structural)]
pub struct Ipv4 {
    pub a: u8,
    pub b: u8,
    pub c: u8,
    pub d: u8,
}

/// The value of a decimal digit string, most significant digit first.
pub open spec fn dec_val(s: Seq<char>) -> int
    decreases s.len(),
{
    if s.len() == 0 {
        0
    } else {
        dec_val(s.drop_last()) * 10 + dec_digit_val(s.last())
    }
}

/// A valid octet: one to three decimal digits, no leading zero unless
/// the octet is exactly `"0"`, value at most 255.
pub open spec fn is_valid_octet(s: Seq<char>) -> bool {
    1 <= s.len() <= 3 && (forall|i: int| 0 <= i < s.len() ==> is_dec_digit(s[i])) && (s.len() > 1
        ==> s[0] != '0') && dec_val(s) <= 255
}

/// Strict parse of a dotted-quad IPv4 literal.
pub open spec fn spec_parse_ipv4(s: Seq<char>) -> Option<Ipv4> {
    let parts = spec_split(s, '.');
    if parts.len() == 4 && is_valid_octet(parts[0]) && is_valid_octet(parts[1]) && is_valid_octet(
        parts[2],
    ) && is_valid_octet(parts[3]) {
        Some(
            Ipv4 {
                a: dec_val(parts[0]) as u8,
                b: dec_val(parts[1]) as u8,
                c: dec_val(parts[2]) as u8,
                d: dec_val(parts[3]) as u8,
            },
        )
    } else {
        None
    }
}

/// The minimal decimal digit string of a non-negative value.
pub open spec fn spec_dec(n: int) -> Seq<char>
    decreases n,
{
    if n < 10 {
        seq![dec_digit_char(n)]
    } else {
        spec_dec(n / 10).push(dec_digit_char(n % 10))
    }
}

/// The canonical dotted-quad form of an address.
pub open spec fn spec_ipv4_str(ip: Ipv4) -> Seq<char> {
    spec_dec(ip.a as int) + seq!['.'] + spec_dec(ip.b as int) + seq!['.'] + spec_dec(ip.c as int)
        + seq!['.'] + spec_dec(ip.d as int)
}

/// A digit character evaluates back to the digit it was made from.
pub proof fn lemma_digit_char_val(d: int)
    requires
        0 <= d < 10,
    ensures
        is_dec_digit(dec_digit_char(d)),
        dec_digit_val(dec_digit_char(d)) == d,
{
}

/// The canonical decimal string of an octet value is a valid octet
/// string and evaluates back to the value.
pub proof fn lemma_dec_inverse(n: int)
    requires
        0 <= n,
    ensures
        spec_dec(n).len() >= 1,
        forall|i: int| 0 <= i < spec_dec(n).len() ==> is_dec_digit(spec_dec(n)[i]),
        dec_val(spec_dec(n)) == n,
        n >= 1 ==> spec_dec(n)[0] != '0',
        n < 10 ==> spec_dec(n).len() == 1,
        n < 100 ==> spec_dec(n).len() <= 2,
        n < 1000 ==> spec_dec(n).len() <= 3,
    decreases n,
{
    if n < 10 {
        lemma_digit_char_val(n);
        assert(spec_dec(n) == seq![dec_digit_char(n)]);
        assert(spec_dec(n).drop_last() =~= Seq::<char>::empty());
        assert(dec_val(spec_dec(n)) == dec_val(Seq::<char>::empty()) * 10 + dec_digit_val(
            dec_digit_char(n),
        ));
    } else {
        lemma_dec_inverse(n / 10);
        lemma_digit_char_val(n % 10);
        let s = spec_dec(n);
        assert(s == spec_dec(n / 10).push(dec_digit_char(n % 10)));
        assert(s.drop_last() =~= spec_dec(n / 10));
        assert(dec_val(s) == dec_val(spec_dec(n / 10)) * 10 + dec_digit_val(
            dec_digit_char(n % 10),
        ));
        assert(s[0] == spec_dec(n / 10)[0]);
    }
}

/// A digit-only string contains no dot.
pub proof fn lemma_digits_no_dot(s: Seq<char>)
    requires
        forall|i: int| 0 <= i < s.len() ==> is_dec_digit(s[i]),
    ensures
        forall|i: int| 0 <= i < s.len() ==> s[i] != '.',
        forall|i: int| 0 <= i < s.len() ==> s[i] != ':',
{
}

/// Parsing the canonical form of any address yields that address.
#[verifier::rlimit(50)]
pub proof fn lemma_ipv4_roundtrip(ip: Ipv4)
    ensures
        spec_parse_ipv4(spec_ipv4_str(ip)) == Some(ip),
{
    let sa = spec_dec(ip.a as int);
    let sb = spec_dec(ip.b as int);
    let sc = spec_dec(ip.c as int);
    let sd = spec_dec(ip.d as int);
    lemma_dec_inverse(ip.a as int);
    lemma_dec_inverse(ip.b as int);
    lemma_dec_inverse(ip.c as int);
    lemma_dec_inverse(ip.d as int);
    lemma_digits_no_dot(sa);
    lemma_digits_no_dot(sb);
    lemma_digits_no_dot(sc);
    lemma_digits_no_dot(sd);
    let full = spec_ipv4_str(ip);
    let rest1 = sb + seq!['.'] + sc + seq!['.'] + sd;
    let rest2 = sc + seq!['.'] + sd;
    assert(full =~= sa + seq!['.'] + rest1);
    assert(rest1 =~= sb + seq!['.'] + rest2);
    lemma_split_concat(sa, rest1, '.');
    lemma_split_concat(sb, rest2, '.');
    lemma_split_concat(sc, sd, '.');
    lemma_split_whole(sa, '.');
    lemma_split_whole(sb, '.');
    lemma_split_whole(sc, '.');
    lemma_split_whole(sd, '.');
    assert(spec_split(full, '.') =~= seq![sa, sb, sc, sd]);
}

/// The canonical form of any address contains a dot.
pub proof fn lemma_ipv4_str_has_dot(ip: Ipv4)
    ensures
        spec_ipv4_str(ip).contains('.'),
{
    lemma_dec_inverse(ip.a as int);
    let full = spec_ipv4_str(ip);
    assert(full[spec_dec(ip.a as int).len() as int] == '.');
}

/// Parses one octet: digits only, one to three of them, no leading
/// zero, at most 255.
fn parse_octet(p: &str) -> (r: Option<u8>)
    ensures
        match r {
            Some(v) => is_valid_octet(p@) && v == dec_val(p@),
            None => !is_valid_octet(p@),
        },
{
    let n = p.unicode_len();
    if n < 1 || n > 3 {
        return None;
    }
    let first = p.get_char(0);
    if n > 1 && first == '0' {
        return None;
    }
    let mut val: u32 = 0;
    let mut i: usize = 0;
    while i < n
        invariant
            i <= n,
            n == p@.len(),
            1 <= n <= 3,
            forall|j: int| 0 <= j < i ==> is_dec_digit(p@[j]),
            val == dec_val(p@.take(i as int)),
            i == 0 ==> val == 0,
            i == 1 ==> val <= 9,
            i == 2 ==> val <= 99,
            i == 3 ==> val <= 999,
        decreases n - i,
    {
        let c = p.get_char(i);
        if !is_dec_digit_exec(c) {
            return None;
        }
        let d = dec_digit_val_exec(c);
        proof {
            assert(p@.take(i + 1).drop_last() =~= p@.take(i as int));
            assert(p@.take(i + 1).last() == p@[i as int]);
        }
        val = val * 10 + (d as u32);
        i += 1;
    }
    proof {
        assert(p@.take(n as int) =~= p@);
    }
    if val > 255 {
        return None;
    }
    Some(val as u8)
}

/// Strict parse of a dotted-quad IPv4 literal.
pub fn parse_ipv4(s: &str) -> (r: Option<Ipv4>)
    ensures
        r == spec_parse_ipv4(s@),
{
    let parts = split_char(s, '.');
    if parts.len() != 4 {
        return None;
    }
    let a = match parse_octet(parts[0].as_str()) {
        Some(v) => v,
        None => { return None },
    };
    let b = match parse_octet(parts[1].as_str()) {
        Some(v) => v,
        None => { return None },
    };
    let c = match parse_octet(parts[2].as_str()) {
        Some(v) => v,
        None => { return None },
    };
    let d = match parse_octet(parts[3].as_str()) {
        Some(v) => v,
        None => { return None },
    };
    Some(Ipv4 { a, b, c, d })
}

/// Appends the minimal decimal form of `n`.
pub fn push_dec(s: &mut String, n: u8)
    ensures
        final(s)@ == old(s)@ + spec_dec(n as int),
{
    let ghost n0 = n as int;
    if n >= 100 {
        let h = n / 10;
        push_char(s, dec_digit_exec(h / 10));
        push_char(s, dec_digit_exec(h % 10));
        push_char(s, dec_digit_exec(n % 10));
        proof {
            let m = n0 / 10;
            assert(spec_dec(m) == spec_dec(m / 10).push(dec_digit_char(m % 10)));
            assert(spec_dec(m / 10) == seq![dec_digit_char(m / 10)]);
            assert(s@ =~= old(s)@ + spec_dec(n0));
        }
    } else if n >= 10 {
        push_char(s, dec_digit_exec(n / 10));
        push_char(s, dec_digit_exec(n % 10));
        proof {
            assert(spec_dec(n0 / 10) == seq![dec_digit_char(n0 / 10)]);
            assert(s@ =~= old(s)@ + spec_dec(n0));
        }
    } else {
        push_char(s, dec_digit_exec(n));
        proof {
            assert(s@ =~= old(s)@ + spec_dec(n0));
        }
    }
}

/// The canonical dotted-quad form of an address.
pub fn ipv4_string(ip: &Ipv4) -> (r: String)
    ensures
        r@ == spec_ipv4_str(*ip),
{
    let mut s = String::new();
    push_dec(&mut s, ip.a);
    push_char(&mut s, '.');
    push_dec(&mut s, ip.b);
    push_char(&mut s, '.');
    push_dec(&mut s, ip.c);
    push_char(&mut s, '.');
    push_dec(&mut s, ip.d);
    proof {
        assert(s@ =~= spec_ipv4_str(*ip));
    }
    s
}

} // verus!
