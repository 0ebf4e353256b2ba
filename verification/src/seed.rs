//! The seed list of fleet addresses.
//!
//! At startup an external loader reads a plain-text file, one address
//! literal per line, and feeds the result to the registry's bulk load.
//! The verified part is the line filter: lines that spell an IPv4 or IPv6
//! literal are kept, in file order; lines that do not are silently
//! skipped, so a blank file yields an empty registry.

use vstd::prelude::*;
use crate::addr::{IpAddress, parse_ip, parse_ip_spec, tokens_view};

verus! {

/// The addresses the given lines spell, in order, unparseable lines
/// skipped.
pub open spec fn parsed_addresses(lines: Seq<Seq<u8>>) -> Seq<IpAddress> {
    lines.filter_map(|l: Seq<u8>| parse_ip_spec(l))
}

/// Keeps, in order, every line that parses as an address literal.
pub fn parse_ip_lines(lines: &Vec<Vec<u8>>) -> (r: Vec<IpAddress>)
    ensures
        r@ == parsed_addresses(tokens_view(lines@)),
{
    let ghost f = |l: Seq<u8>| parse_ip_spec(l);
    let ghost lv = tokens_view(lines@);
    let mut out: Vec<IpAddress> = Vec::new();
    let n = lines.len();
    proof {
        assert(lv.take(0) =~~= Seq::<Seq<u8>>::empty());
        assert(out@ =~= lv.take(0).filter_map(f));
    }
    for i in 0..n
        invariant
            n == lines@.len(),
            f == (|l: Seq<u8>| parse_ip_spec(l)),
            lv == tokens_view(lines@),
            lv.len() == n,
            out@ == lv.take(i as int).filter_map(f),
    {
        proof {
            assert(lv.take(i + 1).drop_last() =~~= lv.take(i as int));
            assert(lv.take(i + 1).last() == lv[i as int]);
            assert(lv[i as int] == lines@[i as int]@);
        }
        match parse_ip(lines[i].as_slice()) {
            Some(ip) => {
                out.push(ip);
                proof {
                    assert(f(lv[i as int]) == parse_ip_spec(lines@[i as int]@));
                    assert(f(lv.take(i + 1).last()) == Some(ip));
                    assert(lv.take(i + 1).filter_map(f) == lv.take(i as int).filter_map(f)
                        + seq![ip]);
                    assert(out@ =~= lv.take(i + 1).filter_map(f));
                }
            },
            None => {
                proof {
                    assert(f(lv[i as int]) == parse_ip_spec(lines@[i as int]@));
                    assert(f(lv.take(i + 1).last()) is None);
                    assert(lv.take(i + 1).filter_map(f) == lv.take(i as int).filter_map(f));
                }
            },
        }
    }
    proof {
        assert(lv.take(n as int) =~~= lv);
    }
    out
}

} // verus!
