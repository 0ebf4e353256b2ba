//! Textual IPv4 and IPv6 address literals.
//!
//! An address is modelled as plain integers (`IpAddress`); this module gives
//! it a canonical spelling (`format_ip`) and reads spellings back
//! (`parse_ip`). The grammar accepted by the parser:
//!
//! - IPv4: four decimal octets separated by `.`, each `0..=255`, spelled
//!   without leading zeros.
//! - IPv6: eight groups of one to four hexadecimal digits (either case)
//!   separated by `:`, or fewer groups with one `::` standing for the
//!   omitted run of zero groups. The formatter emits the full eight-group
//!   lowercase form with no leading zeros in a group.
//!
//! Formatting an address and parsing the result recovers the same address
//! (`lemma_format_parse_round_trip`).

use vstd::prelude::*;
use crate::digits::{
    DIGIT_ZERO, all_dec_digits, all_hex_digits, dec_digits, dec_val, format_dec_u64,
    format_hex_u16, hex_digit_val, hex_digits, hex_val, is_dec_digit, is_hex_digit,
    lemma_dec_digits_are_digits, lemma_dec_val_of_digits, lemma_dec_val_upper,
    lemma_hex_digits_are_digits, lemma_hex_val_of_digits, lemma_hex_val_upper, pow10, pow16,
};

verus! {

/// ASCII '.'.
pub const DOT: u8 = 0x2E;

/// ASCII ':'.
pub const COLON: u8 = 0x3A;

/// An IPv4 or IPv6 address as plain integers: four octets, or eight
/// 16-bit groups in order from the most significant.
#[derive(Clone, Copy, PartialEq, Eq, Structural, Debug)]
pub enum IpAddress {
    V4(u8, u8, u8, u8),
    V6(u16, u16, u16, u16, u16, u16, u16, u16),
}

/// `t` does not contain the byte `b`.
pub open spec fn no_byte(t: Seq<u8>, b: u8) -> bool {
    forall|i: int| 0 <= i < t.len() ==> #[trigger] t[i] != b
}

/// The tokens of `s` between occurrences of `sep`; always at least one
/// token, and empty tokens are kept.
pub open spec fn split_bytes(s: Seq<u8>, sep: u8) -> Seq<Seq<u8>>
    decreases s.len(),
{
    if s.len() == 0 {
        seq![Seq::<u8>::empty()]
    } else {
        let rest = split_bytes(s.drop_first(), sep);
        if s[0] == sep {
            seq![Seq::<u8>::empty()] + rest
        } else {
            seq![seq![s[0]] + rest[0]] + rest.drop_first()
        }
    }
}

pub proof fn lemma_split_len(s: Seq<u8>, sep: u8)
    ensures
        split_bytes(s, sep).len() >= 1,
    decreases s.len(),
{
    if s.len() > 0 {
        lemma_split_len(s.drop_first(), sep);
    }
}

/// A separator-free string is a single token.
pub proof fn lemma_split_no_sep(t: Seq<u8>, sep: u8)
    requires
        forall|i: int| 0 <= i < t.len() ==> #[trigger] t[i] != sep,
    ensures
        split_bytes(t, sep) == seq![t],
    decreases t.len(),
{
    if t.len() == 0 {
        assert(split_bytes(t, sep) =~~= seq![t]);
    } else {
        lemma_split_no_sep(t.drop_first(), sep);
        let rest = split_bytes(t.drop_first(), sep);
        assert(rest == seq![t.drop_first()]);
        assert(seq![t[0]] + rest[0] =~= t);
        assert(split_bytes(t, sep) =~~= seq![t]);
    }
}

/// Splitting `t ++ sep ++ rest` with `t` separator-free peels off `t` as
/// the first token.
pub proof fn lemma_split_append(t: Seq<u8>, rest: Seq<u8>, sep: u8)
    requires
        forall|i: int| 0 <= i < t.len() ==> #[trigger] t[i] != sep,
    ensures
        split_bytes(t + seq![sep] + rest, sep) == seq![t] + split_bytes(rest, sep),
    decreases t.len(),
{
    let s = t + seq![sep] + rest;
    if t.len() == 0 {
        assert(s[0] == sep);
        assert(s.drop_first() =~= rest);
        assert(split_bytes(s, sep) =~~= seq![t] + split_bytes(rest, sep));
    } else {
        assert(s[0] == t[0]);
        assert(s[0] != sep);
        assert(s.drop_first() =~= t.drop_first() + seq![sep] + rest);
        lemma_split_append(t.drop_first(), rest, sep);
        let sub = split_bytes(s.drop_first(), sep);
        assert(sub == seq![t.drop_first()] + split_bytes(rest, sep));
        lemma_split_len(rest, sep);
        assert(sub[0] == t.drop_first());
        assert(seq![s[0]] + sub[0] =~= t);
        assert(sub.drop_first() =~= split_bytes(rest, sep));
        assert(split_bytes(s, sep) =~~= seq![t] + split_bytes(rest, sep));
    }
}

/// A token spelling a decimal octet: `0..=255`, no leading zeros.
pub open spec fn is_dec_octet(t: Seq<u8>) -> bool {
    &&& 1 <= t.len() <= 3
    &&& all_dec_digits(t)
    &&& (t.len() > 1 ==> t[0] != DIGIT_ZERO)
    &&& dec_val(t) <= 255
}

/// A token spelling a 16-bit hexadecimal group.
pub open spec fn is_hex_group(t: Seq<u8>) -> bool {
    &&& 1 <= t.len() <= 4
    &&& all_hex_digits(t)
}

/// The IPv4 address `s` spells, if any.
pub open spec fn parse_v4_spec(s: Seq<u8>) -> Option<IpAddress> {
    let parts = split_bytes(s, DOT);
    if parts.len() == 4 && is_dec_octet(parts[0]) && is_dec_octet(parts[1]) && is_dec_octet(
        parts[2],
    ) && is_dec_octet(parts[3]) {
        Some(
            IpAddress::V4(
                dec_val(parts[0]) as u8,
                dec_val(parts[1]) as u8,
                dec_val(parts[2]) as u8,
                dec_val(parts[3]) as u8,
            ),
        )
    } else {
        None
    }
}

/// Tokens `lo..hi` are all hexadecimal groups.
pub open spec fn all_groups(parts: Seq<Seq<u8>>, lo: int, hi: int) -> bool {
    forall|j: int| lo <= j < hi ==> is_hex_group(#[trigger] parts[j])
}

/// The values of the group tokens `lo..hi`, in order.
pub open spec fn group_vals(parts: Seq<Seq<u8>>, lo: int, hi: int) -> Seq<u16> {
    Seq::new((hi - lo) as nat, |j: int| hex_val(parts[lo + j]) as u16)
}

/// `k` zero groups.
pub open spec fn zero_groups(k: int) -> Seq<u16> {
    Seq::new(k as nat, |j: int| 0u16)
}

/// Token `p` is the empty token of a `::` strictly inside the literal,
/// with hexadecimal groups on both sides.
pub open spec fn interior_split(parts: Seq<Seq<u8>>, p: int) -> bool {
    &&& 1 <= p <= parts.len() - 2
    &&& parts[p].len() == 0
    &&& all_groups(parts, 0, p)
    &&& all_groups(parts, p + 1, parts.len() as int)
}

/// The eight groups a colon-split spells, if any: the full eight-group
/// form, or one `::` — the whole address, leading, trailing, or interior —
/// standing for the omitted run of zero groups.
pub open spec fn v6_expansion(parts: Seq<Seq<u8>>) -> Option<Seq<u16>> {
    let n = parts.len() as int;
    if n == 8 && all_groups(parts, 0, 8) {
        Some(group_vals(parts, 0, 8))
    } else if n == 3 && parts[0].len() == 0 && parts[1].len() == 0 && parts[2].len() == 0 {
        Some(zero_groups(8))
    } else if 3 <= n <= 9 && parts[0].len() == 0 && parts[1].len() == 0 && all_groups(
        parts,
        2,
        n,
    ) {
        Some(zero_groups(10 - n) + group_vals(parts, 2, n))
    } else if 3 <= n <= 9 && parts[n - 1].len() == 0 && parts[n - 2].len() == 0 && all_groups(
        parts,
        0,
        n - 2,
    ) {
        Some(group_vals(parts, 0, n - 2) + zero_groups(10 - n))
    } else if 3 <= n <= 8 && (exists|p: int| interior_split(parts, p)) {
        let p = choose|p: int| interior_split(parts, p);
        Some(group_vals(parts, 0, p) + zero_groups(9 - n) + group_vals(parts, p + 1, n))
    } else {
        None
    }
}

/// The IPv6 address `s` spells, if any.
pub open spec fn parse_v6_spec(s: Seq<u8>) -> Option<IpAddress> {
    match v6_expansion(split_bytes(s, COLON)) {
        Some(g) => Some(IpAddress::V6(g[0], g[1], g[2], g[3], g[4], g[5], g[6], g[7])),
        None => None,
    }
}

/// The address `s` spells: the IPv4 reading if there is one, else the IPv6
/// reading, else nothing.
pub open spec fn parse_ip_spec(s: Seq<u8>) -> Option<IpAddress> {
    if parse_v4_spec(s) is Some {
        parse_v4_spec(s)
    } else {
        parse_v6_spec(s)
    }
}

/// The canonical spelling of an address.
pub open spec fn format_ip_spec(ip: IpAddress) -> Seq<u8> {
    match ip {
        IpAddress::V4(a, b, c, d) => dec_digits(a as nat) + seq![DOT] + dec_digits(b as nat)
            + seq![DOT] + dec_digits(c as nat) + seq![DOT] + dec_digits(d as nat),
        IpAddress::V6(g0, g1, g2, g3, g4, g5, g6, g7) => hex_digits(g0 as nat) + seq![COLON]
            + hex_digits(g1 as nat) + seq![COLON] + hex_digits(g2 as nat) + seq![COLON]
            + hex_digits(g3 as nat) + seq![COLON] + hex_digits(g4 as nat) + seq![COLON]
            + hex_digits(g5 as nat) + seq![COLON] + hex_digits(g6 as nat) + seq![COLON]
            + hex_digits(g7 as nat),
    }
}

/// The view of each token in order.
pub open spec fn tokens_view(parts: Seq<Vec<u8>>) -> Seq<Seq<u8>> {
    parts.map_values(|v: Vec<u8>| v@)
}

/// Splits `s` at every occurrence of `sep`, keeping empty tokens.
fn split_bytes_exec(s: &[u8], sep: u8) -> (parts: Vec<Vec<u8>>)
    ensures
        tokens_view(parts@) == split_bytes(s@, sep),
{
    let mut parts: Vec<Vec<u8>> = Vec::new();
    let mut cur: Vec<u8> = Vec::new();
    let n = s.len();
    proof {
        assert(cur@ + s@.skip(0) =~= s@);
        assert(tokens_view(parts@) + split_bytes(cur@ + s@.skip(0), sep) =~~= split_bytes(
            s@,
            sep,
        ));
    }
    for i in 0..n
        invariant
            n == s@.len(),
            forall|j: int| 0 <= j < cur@.len() ==> #[trigger] cur@[j] != sep,
            split_bytes(s@, sep) == tokens_view(parts@) + split_bytes(
                cur@ + s@.skip(i as int),
                sep,
            ),
    {
        if s[i] == sep {
            proof {
                assert(cur@ + s@.skip(i as int) =~= cur@ + seq![sep] + s@.skip(i + 1));
                lemma_split_append(cur@, s@.skip(i + 1), sep);
            }
            let ghost old_parts = parts@;
            let ghost done = cur@;
            parts.push(cur);
            cur = Vec::new();
            proof {
                assert(tokens_view(parts@) =~~= tokens_view(old_parts) + seq![done]);
                assert(cur@ + s@.skip(i + 1) =~= s@.skip(i + 1));
                assert(split_bytes(s@, sep) =~~= tokens_view(parts@) + split_bytes(
                    cur@ + s@.skip(i + 1),
                    sep,
                ));
            }
        } else {
            let ghost old_cur = cur@;
            cur.push(s[i]);
            proof {
                assert(cur@ + s@.skip(i + 1) =~= old_cur + s@.skip(i as int));
            }
        }
    }
    proof {
        assert(cur@ + s@.skip(n as int) =~= cur@);
        lemma_split_no_sep(cur@, sep);
    }
    let ghost old_parts = parts@;
    parts.push(cur);
    proof {
        assert(tokens_view(parts@) =~~= tokens_view(old_parts) + seq![parts@.last()@]);
        assert(tokens_view(parts@) =~~= split_bytes(s@, sep));
    }
    parts
}

/// Reads a token as a decimal octet, if it is one.
fn parse_dec_octet(t: &Vec<u8>) -> (r: Option<u8>)
    ensures
        match r {
            Some(v) => is_dec_octet(t@) && v as nat == dec_val(t@),
            None => !is_dec_octet(t@),
        },
{
    let n = t.len();
    if n < 1 || n > 3 {
        return None;
    }
    if n > 1 && t[0] == DIGIT_ZERO {
        return None;
    }
    let mut val: u16 = 0;
    for i in 0..n
        invariant
            n == t@.len(),
            1 <= n <= 3,
            forall|j: int| 0 <= j < i ==> is_dec_digit(#[trigger] t@[j]),
            val as nat == dec_val(t@.take(i as int)),
            val < 1000,
    {
        let b = t[i];
        if b < 0x30 || b > 0x39 {
            assert(!is_dec_digit(t@[i as int]));
            return None;
        }
        proof {
            assert(all_dec_digits(t@.take(i as int)));
            lemma_dec_val_upper(t@.take(i as int));
            assert(pow10(0) == 1);
            assert(pow10(1) == 10);
            assert(pow10(2) == 100);
            assert(t@.take(i as int).len() == i);
            assert(val < 100);
        }
        let ghost prefix = t@.take(i as int);
        val = val * 10 + (b - 0x30) as u16;
        proof {
            assert(t@.take(i + 1).drop_last() =~= prefix);
            assert(t@.take(i + 1).last() == t@[i as int]);
        }
    }
    proof {
        assert(t@.take(n as int) =~= t@);
    }
    if val > 255 {
        return None;
    }
    Some(val as u8)
}

/// Reads a token as a hexadecimal group, if it is one.
fn parse_hex_group(t: &Vec<u8>) -> (r: Option<u16>)
    ensures
        match r {
            Some(v) => is_hex_group(t@) && v as nat == hex_val(t@),
            None => !is_hex_group(t@),
        },
{
    let n = t.len();
    if n < 1 || n > 4 {
        return None;
    }
    let mut val: u32 = 0;
    for i in 0..n
        invariant
            n == t@.len(),
            1 <= n <= 4,
            forall|j: int| 0 <= j < i ==> is_hex_digit(#[trigger] t@[j]),
            val as nat == hex_val(t@.take(i as int)),
            val < 0x10000,
    {
        let b = t[i];
        let d: u8 = if 0x30 <= b && b <= 0x39 {
            b - 0x30
        } else if 0x41 <= b && b <= 0x46 {
            b - 0x37
        } else if 0x61 <= b && b <= 0x66 {
            b - 0x57
        } else {
            assert(!is_hex_digit(t@[i as int]));
            return None;
        };
        assert(is_hex_digit(t@[i as int]) && d as nat == hex_digit_val(t@[i as int]));
        proof {
            assert(all_hex_digits(t@.take(i as int)));
            lemma_hex_val_upper(t@.take(i as int));
            assert(pow16(0) == 1);
            assert(pow16(1) == 16);
            assert(pow16(2) == 256);
            assert(pow16(3) == 4096);
            assert(t@.take(i as int).len() == i);
            assert(val < 4096);
        }
        let ghost prefix = t@.take(i as int);
        val = val * 16 + d as u32;
        proof {
            assert(t@.take(i + 1).drop_last() =~= prefix);
            assert(t@.take(i + 1).last() == t@[i as int]);
        }
    }
    proof {
        assert(t@.take(n as int) =~= t@);
        lemma_hex_val_upper(t@);
        assert(pow16(0) == 1);
        assert(pow16(1) == 16);
        assert(pow16(2) == 256);
        assert(pow16(3) == 4096);
        assert(pow16(4) == 0x10000);
    }
    Some(val as u16)
}

/// Reads `s` as an IPv4 literal.
pub fn parse_v4(s: &[u8]) -> (r: Option<IpAddress>)
    ensures
        r == parse_v4_spec(s@),
{
    let parts = split_bytes_exec(s, DOT);
    let ghost toks = split_bytes(s@, DOT);
    if parts.len() != 4 {
        return None;
    }
    assert(forall|i: int| 0 <= i < 4 ==> toks[i] == #[trigger] parts@[i]@);
    let a = match parse_dec_octet(&parts[0]) {
        Some(v) => v,
        None => {
            return None;
        },
    };
    let b = match parse_dec_octet(&parts[1]) {
        Some(v) => v,
        None => {
            return None;
        },
    };
    let c = match parse_dec_octet(&parts[2]) {
        Some(v) => v,
        None => {
            return None;
        },
    };
    let d = match parse_dec_octet(&parts[3]) {
        Some(v) => v,
        None => {
            return None;
        },
    };
    Some(IpAddress::V4(a, b, c, d))
}

/// Reads tokens `lo..hi` as hexadecimal groups; fails on the first token
/// that is none.
fn parse_groups(parts: &Vec<Vec<u8>>, lo: usize, hi: usize) -> (r: Option<Vec<u16>>)
    requires
        lo <= hi <= parts@.len(),
    ensures
        match r {
            Some(v) => {
                &&& v@.len() == hi - lo
                &&& all_groups(tokens_view(parts@), lo as int, hi as int)
                &&& v@ == group_vals(tokens_view(parts@), lo as int, hi as int)
            },
            None => !all_groups(tokens_view(parts@), lo as int, hi as int),
        },
{
    let ghost toks = tokens_view(parts@);
    let mut out: Vec<u16> = Vec::new();
    for k in lo..hi
        invariant
            lo <= k <= hi <= parts@.len(),
            toks == tokens_view(parts@),
            toks.len() == parts@.len(),
            out@.len() == k - lo,
            forall|j: int| lo <= j < k ==> is_hex_group(#[trigger] toks[j]),
            forall|j: int| 0 <= j < k - lo ==> (#[trigger] out@[j]) == (hex_val(
                toks[lo + j],
            ) as u16),
    {
        match parse_hex_group(&parts[k]) {
            Some(v) => {
                let ghost old_out = out@;
                out.push(v);
                proof {
                    assert(toks[k as int] == parts@[k as int]@);
                    assert forall|j: int| 0 <= j < k + 1 - lo implies (#[trigger] out@[j])
                        == (hex_val(toks[lo + j]) as u16) by {
                        if j < k - lo {
                            assert(out@[j] == old_out[j]);
                        } else {
                            assert(out@[j] == v);
                        }
                    }
                }
            },
            None => {
                assert(toks[k as int] == parts@[k as int]@);
                assert(!is_hex_group(toks[k as int]));
                return None;
            },
        }
    }
    proof {
        assert(out@ =~= group_vals(toks, lo as int, hi as int));
    }
    Some(out)
}

/// A vector of `k` zero groups.
fn zero_vec(k: usize) -> (r: Vec<u16>)
    ensures
        r@ == zero_groups(k as int),
{
    let mut out: Vec<u16> = Vec::new();
    for i in 0..k
        invariant
            out@.len() == i,
            forall|j: int| 0 <= j < i ==> (#[trigger] out@[j]) == 0u16,
    {
        out.push(0);
    }
    proof {
        assert(out@ =~= zero_groups(k as int));
    }
    out
}

fn v6_of_groups(g: &Vec<u16>) -> (r: IpAddress)
    requires
        g@.len() == 8,
    ensures
        r == IpAddress::V6(g@[0], g@[1], g@[2], g@[3], g@[4], g@[5], g@[6], g@[7]),
{
    IpAddress::V6(g[0], g[1], g[2], g[3], g[4], g[5], g[6], g[7])
}

/// Reads `s` as an IPv6 literal.
pub fn parse_v6(s: &[u8]) -> (r: Option<IpAddress>)
    ensures
        r == parse_v6_spec(s@),
{
    let parts = split_bytes_exec(s, COLON);
    let ghost toks = split_bytes(s@, COLON);
    let n = parts.len();
    proof {
        assert(toks.len() == n);
        assert(forall|i: int| 0 <= i < n ==> toks[i] == #[trigger] parts@[i]@);
    }
    // The full eight-group form.
    if n == 8 {
        match parse_groups(&parts, 0, 8) {
            Some(groups) => {
                proof {
                    assert(v6_expansion(toks) == Some(group_vals(toks, 0, 8)));
                }
                return Some(v6_of_groups(&groups));
            },
            None => {
                // One of the eight tokens is no group; a compressed
                // reading may still apply.
            },
        }
    }
    if n < 3 || n > 9 {
        return None;
    }
    // The whole address omitted: `::`.
    if n == 3 && parts[0].is_empty() && parts[1].is_empty() && parts[2].is_empty() {
        let groups = zero_vec(8);
        proof {
            assert(v6_expansion(toks) == Some(zero_groups(8)));
        }
        return Some(v6_of_groups(&groups));
    }
    // A leading `::`.
    if parts[0].is_empty() && parts[1].is_empty() {
        proof {
            assert(toks[0].len() == 0);
            assert(!is_hex_group(toks[0]));
        }
        match parse_groups(&parts, 2, n) {
            Some(groups) => {
                let mut g = zero_vec(10 - n);
                let mut rest = groups;
                g.append(&mut rest);
                proof {
                    assert(v6_expansion(toks) == Some(
                        zero_groups(10 - n) + group_vals(toks, 2, n as int),
                    ));
                    assert(g@ == zero_groups(10 - n) + group_vals(toks, 2, n as int));
                }
                return Some(v6_of_groups(&g));
            },
            None => {
                proof {
                    if n - 2 >= 1 {
                        assert(!all_groups(toks, 0, n - 2));
                    }
                    assert forall|p: int| !interior_split(toks, p) by {
                        if 1 <= p <= n - 2 {
                            assert(!all_groups(toks, 0, p));
                        }
                    }
                    assert(v6_expansion(toks) is None);
                }
                return None;
            },
        }
    }
    // A trailing `::`.
    if parts[n - 1].is_empty() && parts[n - 2].is_empty() {
        proof {
            assert(toks[n - 1].len() == 0);
            assert(!is_hex_group(toks[n - 1]));
        }
        match parse_groups(&parts, 0, n - 2) {
            Some(groups) => {
                let mut g = groups;
                let mut z = zero_vec(10 - n);
                g.append(&mut z);
                proof {
                    assert(v6_expansion(toks) == Some(
                        group_vals(toks, 0, n - 2) + zero_groups(10 - n),
                    ));
                    assert(g@ == group_vals(toks, 0, n - 2) + zero_groups(10 - n));
                }
                return Some(v6_of_groups(&g));
            },
            None => {
                proof {
                    assert forall|p: int| !interior_split(toks, p) by {
                        if 1 <= p <= n - 2 {
                            assert(n - 1 >= p + 1);
                            assert(!all_groups(toks, p + 1, n as int));
                        }
                    }
                    assert(v6_expansion(toks) is None);
                }
                return None;
            },
        }
    }
    // An interior `::`: find the empty token.
    let mut j: usize = 0;
    while j < n && !parts[j].is_empty()
        invariant
            j <= n,
            n == parts@.len(),
            toks == split_bytes(s@, COLON),
            toks.len() == n,
            forall|i: int| 0 <= i < n ==> toks[i] == #[trigger] parts@[i]@,
            forall|jj: int| 0 <= jj < j ==> (#[trigger] toks[jj]).len() != 0,
        decreases n - j,
    {
        j = j + 1;
    }
    if j == n {
        // No token is empty, so no `::` occurs.
        proof {
            assert forall|p: int| !interior_split(toks, p) by {
                if 1 <= p <= n - 2 {
                    assert(toks[p].len() != 0);
                }
            }
            assert(v6_expansion(toks) is None);
        }
        return None;
    }
    assert(toks[j as int].len() == 0);
    if j == 0 || j >= n - 1 || n > 8 {
        proof {
            if n <= 8 {
                assert forall|p: int| !interior_split(toks, p) by {
                    if 1 <= p <= n - 2 {
                        assert(p != j);
                        if p < j {
                            assert(toks[p].len() != 0);
                        } else {
                            assert(!all_groups(toks, 0, p));
                        }
                    }
                }
            }
            assert(v6_expansion(toks) is None);
        }
        return None;
    }
    match parse_groups(&parts, 0, j) {
        Some(before) => {
            match parse_groups(&parts, j + 1, n) {
                Some(after) => {
                    let mut g = before;
                    let mut z = zero_vec(9 - n);
                    g.append(&mut z);
                    let mut a = after;
                    g.append(&mut a);
                    proof {
                        assert(interior_split(toks, j as int));
                        let p = choose|p: int| interior_split(toks, p);
                        assert(interior_split(toks, p));
                        if p != j {
                            if p < j {
                                assert(toks[p].len() != 0);
                            } else {
                                assert(!all_groups(toks, 0, p));
                            }
                        }
                        assert(p == j);
                        assert(v6_expansion(toks) == Some(
                            group_vals(toks, 0, j as int) + zero_groups(9 - n) + group_vals(
                                toks,
                                j + 1,
                                n as int,
                            ),
                        ));
                        assert(g@ == group_vals(toks, 0, j as int) + zero_groups(9 - n)
                            + group_vals(toks, j + 1, n as int));
                    }
                    Some(v6_of_groups(&g))
                },
                None => {
                    proof {
                        assert forall|p: int| !interior_split(toks, p) by {
                            if 1 <= p <= n - 2 {
                                if p < j {
                                    assert(toks[p].len() != 0);
                                } else if p == j {
                                    assert(!all_groups(toks, j + 1, n as int));
                                } else {
                                    assert(!all_groups(toks, 0, p));
                                }
                            }
                        }
                        assert(v6_expansion(toks) is None);
                    }
                    None
                },
            }
        },
        None => {
            proof {
                assert forall|p: int| !interior_split(toks, p) by {
                    if 1 <= p <= n - 2 {
                        if p < j {
                            assert(toks[p].len() != 0);
                        } else if p == j {
                            assert(!all_groups(toks, 0, j as int));
                        } else {
                            assert(!all_groups(toks, 0, p));
                        }
                    }
                }
                assert(v6_expansion(toks) is None);
            }
            None
        },
    }
}

/// Reads `s` as an IPv4 or IPv6 literal.
pub fn parse_ip(s: &[u8]) -> (r: Option<IpAddress>)
    ensures
        r == parse_ip_spec(s@),
{
    match parse_v4(s) {
        Some(ip) => Some(ip),
        None => parse_v6(s),
    }
}

/// The canonical spelling of an address, as bytes.
pub fn format_ip(ip: IpAddress) -> (r: Vec<u8>)
    ensures
        r@ == format_ip_spec(ip),
{
    match ip {
        IpAddress::V4(a, b, c, d) => {
            let mut out = format_dec_u64(a as u64);
            out.push(DOT);
            let mut t = format_dec_u64(b as u64);
            out.append(&mut t);
            out.push(DOT);
            let mut t = format_dec_u64(c as u64);
            out.append(&mut t);
            out.push(DOT);
            let mut t = format_dec_u64(d as u64);
            out.append(&mut t);
            assert(out@ =~= format_ip_spec(ip));
            out
        },
        IpAddress::V6(g0, g1, g2, g3, g4, g5, g6, g7) => {
            let mut out = format_hex_u16(g0);
            out.push(COLON);
            let mut t = format_hex_u16(g1);
            out.append(&mut t);
            out.push(COLON);
            let mut t = format_hex_u16(g2);
            out.append(&mut t);
            out.push(COLON);
            let mut t = format_hex_u16(g3);
            out.append(&mut t);
            out.push(COLON);
            let mut t = format_hex_u16(g4);
            out.append(&mut t);
            out.push(COLON);
            let mut t = format_hex_u16(g5);
            out.append(&mut t);
            out.push(COLON);
            let mut t = format_hex_u16(g6);
            out.append(&mut t);
            out.push(COLON);
            let mut t = format_hex_u16(g7);
            out.append(&mut t);
            assert(out@ =~= format_ip_spec(ip));
            out
        },
    }
}

proof fn lemma_no_byte_concat(x: Seq<u8>, y: Seq<u8>, b: u8)
    requires
        no_byte(x, b),
        no_byte(y, b),
    ensures
        no_byte(x + y, b),
{
    assert forall|i: int| 0 <= i < (x + y).len() implies #[trigger] (x + y)[i] != b by {
        if i < x.len() {
            assert((x + y)[i] == x[i]);
        } else {
            assert((x + y)[i] == y[i - x.len()]);
        }
    }
}

/// A canonical decimal spelling contains neither separator byte.
proof fn lemma_dec_spelling_bytes(n: nat)
    ensures
        no_byte(dec_digits(n), DOT),
        no_byte(dec_digits(n), COLON),
{
    lemma_dec_digits_are_digits(n);
}

/// A canonical hexadecimal spelling contains neither separator byte.
proof fn lemma_hex_spelling_bytes(n: nat)
    ensures
        no_byte(hex_digits(n), DOT),
        no_byte(hex_digits(n), COLON),
{
    lemma_hex_digits_are_digits(n);
}

/// The canonical spelling of an octet is a valid octet token denoting it.
proof fn lemma_dec_octet_canonical(x: nat)
    requires
        x <= 255,
    ensures
        is_dec_octet(dec_digits(x)),
        dec_val(dec_digits(x)) == x,
{
    lemma_dec_digits_are_digits(x);
    lemma_dec_val_of_digits(x);
    crate::digits::lemma_dec_digits_first(x);
    assert(pow10(0) == 1);
    assert(pow10(1) == 10);
    assert(pow10(2) == 100);
    assert(pow10(3) == 1000);
    crate::digits::lemma_dec_digits_len(x, 3);
    if dec_digits(x).len() > 1 {
        assert(x >= 10);
    }
}

/// The canonical spelling of a group is a valid group token denoting it.
proof fn lemma_hex_group_canonical(g: nat)
    requires
        g <= 0xFFFF,
    ensures
        is_hex_group(hex_digits(g)),
        hex_val(hex_digits(g)) == g,
{
    lemma_hex_digits_are_digits(g);
    lemma_hex_val_of_digits(g);
    assert(pow16(0) == 1);
    assert(pow16(1) == 16);
    assert(pow16(2) == 256);
    assert(pow16(3) == 4096);
    assert(pow16(4) == 0x10000);
    crate::digits::lemma_hex_digits_len(g, 4);
    assert(hex_digits(g).len() >= 1) by {
        if g < 16 {
        } else {
        }
    }
}

proof fn lemma_round_trip_v4(ip: IpAddress)
    requires
        ip is V4,
    ensures
        parse_v4_spec(format_ip_spec(ip)) == Some(ip),
{
    match ip {
        IpAddress::V4(a, b, c, d) => {
            let da = dec_digits(a as nat);
            let db = dec_digits(b as nat);
            let dc = dec_digits(c as nat);
            let dd = dec_digits(d as nat);
            let s = format_ip_spec(ip);
            lemma_dec_spelling_bytes(a as nat);
            lemma_dec_spelling_bytes(b as nat);
            lemma_dec_spelling_bytes(c as nat);
            lemma_dec_spelling_bytes(d as nat);
            let r2 = dc + seq![DOT] + dd;
            let r1 = db + seq![DOT] + r2;
            assert(s =~= da + seq![DOT] + r1);
            lemma_split_append(da, r1, DOT);
            lemma_split_append(db, r2, DOT);
            lemma_split_append(dc, dd, DOT);
            lemma_split_no_sep(dd, DOT);
            let parts = split_bytes(s, DOT);
            assert(parts =~~= seq![da, db, dc, dd]);
            lemma_dec_octet_canonical(a as nat);
            lemma_dec_octet_canonical(b as nat);
            lemma_dec_octet_canonical(c as nat);
            lemma_dec_octet_canonical(d as nat);
            assert(parse_v4_spec(s) == Some(ip));
        },
        _ => {},
    }
}

/// The spelling of an IPv6 address contains no dot, so its dotted split is
/// a single token and the IPv4 reading fails.
proof fn lemma_v6_spelling_dot_free(ip: IpAddress)
    requires
        ip is V6,
    ensures
        no_byte(format_ip_spec(ip), DOT),
{
    match ip {
        IpAddress::V6(g0, g1, g2, g3, g4, g5, g6, g7) => {
            let h0 = hex_digits(g0 as nat);
            let h1 = hex_digits(g1 as nat);
            let h2 = hex_digits(g2 as nat);
            let h3 = hex_digits(g3 as nat);
            let h4 = hex_digits(g4 as nat);
            let h5 = hex_digits(g5 as nat);
            let h6 = hex_digits(g6 as nat);
            let h7 = hex_digits(g7 as nat);
            let cl = seq![COLON];
            let s = format_ip_spec(ip);
            lemma_hex_spelling_bytes(g0 as nat);
            lemma_hex_spelling_bytes(g1 as nat);
            lemma_hex_spelling_bytes(g2 as nat);
            lemma_hex_spelling_bytes(g3 as nat);
            lemma_hex_spelling_bytes(g4 as nat);
            lemma_hex_spelling_bytes(g5 as nat);
            lemma_hex_spelling_bytes(g6 as nat);
            lemma_hex_spelling_bytes(g7 as nat);
            assert(no_byte(cl, DOT));
            let t1 = h0 + cl;
            let t2 = t1 + h1;
            let t3 = t2 + cl;
            let t4 = t3 + h2;
            let t5 = t4 + cl;
            let t6 = t5 + h3;
            let t7 = t6 + cl;
            let t8 = t7 + h4;
            let t9 = t8 + cl;
            let t10 = t9 + h5;
            let t11 = t10 + cl;
            let t12 = t11 + h6;
            let t13 = t12 + cl;
            let t14 = t13 + h7;
            lemma_no_byte_concat(h0, cl, DOT);
            lemma_no_byte_concat(t1, h1, DOT);
            lemma_no_byte_concat(t2, cl, DOT);
            lemma_no_byte_concat(t3, h2, DOT);
            lemma_no_byte_concat(t4, cl, DOT);
            lemma_no_byte_concat(t5, h3, DOT);
            lemma_no_byte_concat(t6, cl, DOT);
            lemma_no_byte_concat(t7, h4, DOT);
            lemma_no_byte_concat(t8, cl, DOT);
            lemma_no_byte_concat(t9, h5, DOT);
            lemma_no_byte_concat(t10, cl, DOT);
            lemma_no_byte_concat(t11, h6, DOT);
            lemma_no_byte_concat(t12, cl, DOT);
            lemma_no_byte_concat(t13, h7, DOT);
            assert(s =~= t14);
        },
        _ => {},
    }
}

proof fn lemma_round_trip_v6(ip: IpAddress)
    requires
        ip is V6,
    ensures
        parse_v6_spec(format_ip_spec(ip)) == Some(ip),
{
    match ip {
        IpAddress::V6(g0, g1, g2, g3, g4, g5, g6, g7) => {
            let h0 = hex_digits(g0 as nat);
            let h1 = hex_digits(g1 as nat);
            let h2 = hex_digits(g2 as nat);
            let h3 = hex_digits(g3 as nat);
            let h4 = hex_digits(g4 as nat);
            let h5 = hex_digits(g5 as nat);
            let h6 = hex_digits(g6 as nat);
            let h7 = hex_digits(g7 as nat);
            let cl = seq![COLON];
            let s = format_ip_spec(ip);
            lemma_hex_spelling_bytes(g0 as nat);
            lemma_hex_spelling_bytes(g1 as nat);
            lemma_hex_spelling_bytes(g2 as nat);
            lemma_hex_spelling_bytes(g3 as nat);
            lemma_hex_spelling_bytes(g4 as nat);
            lemma_hex_spelling_bytes(g5 as nat);
            lemma_hex_spelling_bytes(g6 as nat);
            lemma_hex_spelling_bytes(g7 as nat);
            let r6 = h6 + cl + h7;
            let r5 = h5 + cl + r6;
            let r4 = h4 + cl + r5;
            let r3 = h3 + cl + r4;
            let r2 = h2 + cl + r3;
            let r1 = h1 + cl + r2;
            assert(s =~= h0 + cl + r1);
            lemma_split_append(h0, r1, COLON);
            lemma_split_append(h1, r2, COLON);
            lemma_split_append(h2, r3, COLON);
            lemma_split_append(h3, r4, COLON);
            lemma_split_append(h4, r5, COLON);
            lemma_split_append(h5, r6, COLON);
            lemma_split_append(h6, h7, COLON);
            lemma_split_no_sep(h7, COLON);
            let parts = split_bytes(s, COLON);
            assert(parts =~~= seq![h0, h1, h2, h3, h4, h5, h6, h7]);
            lemma_hex_group_canonical(g0 as nat);
            lemma_hex_group_canonical(g1 as nat);
            lemma_hex_group_canonical(g2 as nat);
            lemma_hex_group_canonical(g3 as nat);
            lemma_hex_group_canonical(g4 as nat);
            lemma_hex_group_canonical(g5 as nat);
            lemma_hex_group_canonical(g6 as nat);
            lemma_hex_group_canonical(g7 as nat);
            assert forall|i: int| 0 <= i < 8 implies is_hex_group(#[trigger] parts[i]) by {
                assert(parts[0] == h0 && parts[1] == h1 && parts[2] == h2 && parts[3] == h3
                    && parts[4] == h4 && parts[5] == h5 && parts[6] == h6 && parts[7] == h7);
            }
            assert(all_groups(parts, 0, 8));
            assert(v6_expansion(parts) == Some(group_vals(parts, 0, 8)));
            let gv = group_vals(parts, 0, 8);
            assert(gv[0] == g0 && gv[1] == g1 && gv[2] == g2 && gv[3] == g3 && gv[4] == g4
                && gv[5] == g5 && gv[6] == g6 && gv[7] == g7);
            assert(parse_v6_spec(s) == Some(ip));
        },
        _ => {},
    }
}

/// Round trip: parsing the canonical spelling of any address recovers that
/// address, for IPv4 and IPv6 alike.
pub proof fn lemma_format_parse_round_trip(ip: IpAddress)
    ensures
        parse_ip_spec(format_ip_spec(ip)) == Some(ip),
{
    match ip {
        IpAddress::V4(a, b, c, d) => {
            lemma_round_trip_v4(ip);
        },
        IpAddress::V6(g0, g1, g2, g3, g4, g5, g6, g7) => {
            lemma_v6_spelling_dot_free(ip);
            lemma_split_no_sep(format_ip_spec(ip), DOT);
            assert(split_bytes(format_ip_spec(ip), DOT).len() == 1);
            assert(parse_v4_spec(format_ip_spec(ip)) is None);
            lemma_round_trip_v6(ip);
        },
    }
}

} // verus!
