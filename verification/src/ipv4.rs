//! Plain IPv4 addresses, with a verified dotted-quad codec.
//!
//! Addresses are held as four octets so that the configuration logic can be
//! verified over plain values; the textual form is the canonical dotted quad
//! (each octet a decimal numeral without leading zeros).

use vstd::prelude::*;
use crate::text::{
    canon_dec_ok, dec_chars, dec_val, is_space, lemma_dec_chars_len, lemma_dec_chars_wf,
    lemma_split_sep_cons, lemma_split_sep_whole, parse_canon_dec, pow10, render_u32, split_char,
    split_sep,
};

verus! {

#[derive(Clone, Copy, PartialEq, Eq, Structural, Debug)]
pub struct Ipv4Addr {
    pub a: u8,
    pub b: u8,
    pub c: u8,
    pub d: u8,
}

impl Ipv4Addr {
    pub fn new(a: u8, b: u8, c: u8, d: u8) -> (r: Ipv4Addr)
        ensures
            r == (Ipv4Addr { a, b, c, d }),
    {
        Ipv4Addr { a, b, c, d }
    }
}

/// The canonical dotted-quad text of an address.
pub open spec fn ipv4_chars(ip: Ipv4Addr) -> Seq<char> {
    dec_chars(ip.a as nat) + seq!['.'] + dec_chars(ip.b as nat) + seq!['.'] + dec_chars(
        ip.c as nat,
    ) + seq!['.'] + dec_chars(ip.d as nat)
}

/// One octet in canonical decimal, at most 255.
pub open spec fn spec_octet(s: Seq<char>) -> Option<u8> {
    if canon_dec_ok(s, 255) {
        Some(dec_val(s) as u8)
    } else {
        None
    }
}

/// A dotted quad: exactly four canonical octets separated by dots.
pub open spec fn spec_parse_ipv4(s: Seq<char>) -> Option<Ipv4Addr> {
    let parts = split_sep(s, '.');
    if parts.len() == 4 {
        match (spec_octet(parts[0]), spec_octet(parts[1]), spec_octet(parts[2]), spec_octet(
            parts[3],
        )) {
            (Some(a), Some(b), Some(c), Some(d)) => Some(Ipv4Addr { a, b, c, d }),
            _ => None,
        }
    } else {
        None
    }
}

pub fn format_ipv4(ip: &Ipv4Addr) -> (s: String)
    ensures
        s@ == ipv4_chars(*ip),
{
    proof {
        reveal_strlit(".");
    }
    let mut s = render_u32(ip.a as u32);
    s.append(".");
    s.append(render_u32(ip.b as u32).as_str());
    s.append(".");
    s.append(render_u32(ip.c as u32).as_str());
    s.append(".");
    s.append(render_u32(ip.d as u32).as_str());
    proof {
        assert(s@ =~= ipv4_chars(*ip));
    }
    s
}

fn parse_octet(s: &str) -> (r: Option<u8>)
    ensures
        r == spec_octet(s@),
{
    match parse_canon_dec(s, 255) {
        Some(v) => Some(v as u8),
        None => None,
    }
}

pub fn parse_ipv4(s: &str) -> (r: Option<Ipv4Addr>)
    ensures
        r == spec_parse_ipv4(s@),
{
    let parts = split_char(s, '.');
    if parts.len() != 4 {
        return None;
    }
    proof {
        assert(parts.deep_view()[0] == parts@[0]@);
        assert(parts.deep_view()[1] == parts@[1]@);
        assert(parts.deep_view()[2] == parts@[2]@);
        assert(parts.deep_view()[3] == parts@[3]@);
    }
    let a = parse_octet(parts[0].as_str());
    let b = parse_octet(parts[1].as_str());
    let c = parse_octet(parts[2].as_str());
    let d = parse_octet(parts[3].as_str());
    match (a, b, c, d) {
        (Some(a), Some(b), Some(c), Some(d)) => Some(Ipv4Addr { a, b, c, d }),
        _ => None,
    }
}

proof fn lemma_pow10_3()
    ensures
        pow10(3) == 1000,
{
    assert(pow10(0) == 1);
    assert(pow10(1) == 10);
    assert(pow10(2) == 100);
    assert(pow10(3) == 1000);
}

/// The dotted-quad text of an address is made of digits and dots only — in
/// particular it holds no whitespace, no comment marker and no quote, so an
/// address always stays one whole token on its line.
pub proof fn lemma_ipv4_chars_wf(ip: Ipv4Addr)
    ensures
        ipv4_chars(ip).len() >= 7,
        forall|i: int|
            0 <= i < ipv4_chars(ip).len() ==> !is_space(#[trigger] ipv4_chars(ip)[i])
                && ipv4_chars(ip)[i] != '#' && ipv4_chars(ip)[i] != '"' && ipv4_chars(ip)[i]
                != '=',
{
    lemma_pow10_3();
    lemma_dec_chars_wf(ip.a as nat);
    lemma_dec_chars_wf(ip.b as nat);
    lemma_dec_chars_wf(ip.c as nat);
    lemma_dec_chars_wf(ip.d as nat);
    lemma_dec_chars_len(ip.a as nat, 3);
    lemma_dec_chars_len(ip.b as nat, 3);
    lemma_dec_chars_len(ip.c as nat, 3);
    lemma_dec_chars_len(ip.d as nat, 3);
}

/// Parsing the canonical text of an address yields the address back.
pub proof fn lemma_ipv4_roundtrip(ip: Ipv4Addr)
    ensures
        spec_parse_ipv4(ipv4_chars(ip)) == Some(ip),
{
    lemma_pow10_3();
    lemma_dec_chars_wf(ip.a as nat);
    lemma_dec_chars_wf(ip.b as nat);
    lemma_dec_chars_wf(ip.c as nat);
    lemma_dec_chars_wf(ip.d as nat);
    lemma_dec_chars_len(ip.a as nat, 3);
    lemma_dec_chars_len(ip.b as nat, 3);
    lemma_dec_chars_len(ip.c as nat, 3);
    lemma_dec_chars_len(ip.d as nat, 3);
    let ca = dec_chars(ip.a as nat);
    let cb = dec_chars(ip.b as nat);
    let cc = dec_chars(ip.c as nat);
    let cd = dec_chars(ip.d as nat);
    let tail_c = cc + seq!['.'] + cd;
    let tail_b = cb + seq!['.'] + tail_c;
    assert(ipv4_chars(ip) =~= ca + seq!['.'] + tail_b);
    lemma_split_sep_cons(ca, '.', tail_b);
    lemma_split_sep_cons(cb, '.', tail_c);
    lemma_split_sep_cons(cc, '.', cd);
    lemma_split_sep_whole(cd, '.');
    let parts = split_sep(ipv4_chars(ip), '.');
    assert(parts =~= seq![ca, cb, cc, cd]);
    assert(spec_octet(ca) == Some(ip.a));
    assert(spec_octet(cb) == Some(ip.b));
    assert(spec_octet(cc) == Some(ip.c));
    assert(spec_octet(cd) == Some(ip.d));
}

} // verus!
