//! The receiving half of the peer notification protocol.
//!
//! The listener binds the well-known port once for the process lifetime and
//! blocks for datagrams; binding failure is fatal at startup. Decoding a
//! received payload is the verified part: at most `MAX_DATAGRAM` bytes are
//! considered (a receiver's buffer truncates the rest), surrounding ASCII
//! whitespace is trimmed, and the remainder must parse as an IPv4 or IPv6
//! literal. A payload that does not yield an address is silently discarded;
//! no sender authentication or source filtering is performed.

use vstd::prelude::*;
use crate::addr::{IpAddress, parse_ip, parse_ip_spec};

verus! {

/// The receive buffer size: bytes beyond this are truncated away before
/// decoding, so an oversized payload will typically fail to parse.
pub const MAX_DATAGRAM: usize = 128;

/// ASCII whitespace: space, tab, line feed, carriage return.
pub open spec fn is_ascii_ws(b: u8) -> bool {
    b == 0x20 || b == 0x09 || b == 0x0A || b == 0x0D
}

/// The number of leading whitespace bytes of `s`.
pub open spec fn ws_prefix_len(s: Seq<u8>) -> int
    decreases s.len(),
{
    if s.len() == 0 || !is_ascii_ws(s[0]) {
        0
    } else {
        1 + ws_prefix_len(s.drop_first())
    }
}

/// The number of trailing whitespace bytes of `s`.
pub open spec fn ws_suffix_len(s: Seq<u8>) -> int
    decreases s.len(),
{
    if s.len() == 0 || !is_ascii_ws(s.last()) {
        0
    } else {
        1 + ws_suffix_len(s.drop_last())
    }
}

/// `s` without its leading and trailing ASCII whitespace.
pub open spec fn trim_spec(s: Seq<u8>) -> Seq<u8> {
    if ws_prefix_len(s) == s.len() {
        Seq::<u8>::empty()
    } else {
        s.subrange(ws_prefix_len(s), s.len() - ws_suffix_len(s))
    }
}

/// The address a received payload denotes, if any: the first
/// `MAX_DATAGRAM` bytes, trimmed, read as an address literal.
pub open spec fn datagram_address(data: Seq<u8>) -> Option<IpAddress> {
    let capped = if data.len() > MAX_DATAGRAM {
        data.take(MAX_DATAGRAM as int)
    } else {
        data
    };
    parse_ip_spec(trim_spec(capped))
}

proof fn lemma_ws_prefix(s: Seq<u8>)
    ensures
        0 <= ws_prefix_len(s) <= s.len(),
        forall|j: int| 0 <= j < ws_prefix_len(s) ==> is_ascii_ws(#[trigger] s[j]),
        ws_prefix_len(s) < s.len() ==> !is_ascii_ws(s[ws_prefix_len(s)]),
    decreases s.len(),
{
    if s.len() > 0 && is_ascii_ws(s[0]) {
        lemma_ws_prefix(s.drop_first());
        let rest = s.drop_first();
        assert forall|j: int| 0 <= j < ws_prefix_len(s) implies is_ascii_ws(#[trigger] s[j]) by {
            if j > 0 {
                assert(rest[j - 1] == s[j]);
                assert(is_ascii_ws(rest[j - 1]));
            }
        }
        if ws_prefix_len(s) < s.len() {
            assert(s[ws_prefix_len(s)] == rest[ws_prefix_len(rest)]);
        }
    }
}

proof fn lemma_ws_suffix(s: Seq<u8>)
    ensures
        0 <= ws_suffix_len(s) <= s.len(),
        forall|j: int| s.len() - ws_suffix_len(s) <= j < s.len() ==> is_ascii_ws(#[trigger] s[j]),
        ws_suffix_len(s) < s.len() ==> !is_ascii_ws(s[s.len() - ws_suffix_len(s) - 1]),
    decreases s.len(),
{
    if s.len() > 0 && is_ascii_ws(s.last()) {
        lemma_ws_suffix(s.drop_last());
        let rest = s.drop_last();
        assert forall|j: int| s.len() - ws_suffix_len(s) <= j < s.len() implies is_ascii_ws(
            #[trigger] s[j],
        ) by {
            if j < s.len() - 1 {
                assert(rest[j] == s[j]);
                assert(is_ascii_ws(rest[j]));
            }
        }
        if ws_suffix_len(s) < s.len() {
            assert(s[s.len() - ws_suffix_len(s) - 1] == rest[rest.len() - ws_suffix_len(rest)
                - 1]);
        }
    }
}

/// Decodes one received datagram: the address it carries, or nothing when
/// the (possibly truncated) payload does not spell one. The listener loop
/// invokes its handler exactly once per `Some` and never otherwise.
pub fn decode_datagram(data: &[u8]) -> (r: Option<IpAddress>)
    ensures
        r == datagram_address(data@),
{
    let len: usize = if data.len() > MAX_DATAGRAM {
        MAX_DATAGRAM
    } else {
        data.len()
    };
    let capped: &[u8] = &data[0..len];
    proof {
        if data@.len() > MAX_DATAGRAM {
            assert(capped@ =~= data@.take(MAX_DATAGRAM as int));
        } else {
            assert(capped@ =~= data@);
        }
        lemma_ws_prefix(capped@);
        lemma_ws_suffix(capped@);
    }
    let mut lo: usize = 0;
    loop
        invariant
            lo <= len,
            len == capped@.len(),
            forall|j: int| 0 <= j < lo ==> is_ascii_ws(#[trigger] capped@[j]),
        ensures
            lo <= len,
            forall|j: int| 0 <= j < lo ==> is_ascii_ws(#[trigger] capped@[j]),
            lo == len || !is_ascii_ws(capped@[lo as int]),
        decreases len - lo,
    {
        if lo >= len {
            break;
        }
        let b = capped[lo];
        if !(b == 0x20 || b == 0x09 || b == 0x0A || b == 0x0D) {
            break;
        }
        lo = lo + 1;
    }
    proof {
        if lo < ws_prefix_len(capped@) {
            assert(!is_ascii_ws(capped@[lo as int]));
            assert(is_ascii_ws(capped@[lo as int]));
        }
        if ws_prefix_len(capped@) < lo {
            assert(is_ascii_ws(capped@[ws_prefix_len(capped@)]));
            assert(!is_ascii_ws(capped@[ws_prefix_len(capped@)]));
        }
        assert(lo == ws_prefix_len(capped@));
    }
    if lo == len {
        let empty: &[u8] = &data[0..0];
        let r = parse_ip(empty);
        proof {
            assert(empty@ =~= trim_spec(capped@));
        }
        return r;
    }
    let mut hi: usize = len;
    loop
        invariant
            lo < hi <= len,
            len == capped@.len(),
            !is_ascii_ws(capped@[lo as int]),
            forall|j: int| hi <= j < len ==> is_ascii_ws(#[trigger] capped@[j]),
        ensures
            lo < hi <= len,
            forall|j: int| hi <= j < len ==> is_ascii_ws(#[trigger] capped@[j]),
            !is_ascii_ws(capped@[hi - 1]),
        decreases hi,
    {
        let b = capped[hi - 1];
        if !(b == 0x20 || b == 0x09 || b == 0x0A || b == 0x0D) {
            break;
        }
        assert(hi - 1 > lo) by {
            assert(!is_ascii_ws(capped@[lo as int]));
        }
        hi = hi - 1;
    }
    proof {
        let k = capped@.len() - ws_suffix_len(capped@);
        if k < hi {
            assert(is_ascii_ws(capped@[hi - 1]));
        }
        if hi < k {
            assert(ws_suffix_len(capped@) < capped@.len());
            assert(is_ascii_ws(capped@[k - 1]));
            assert(!is_ascii_ws(capped@[k - 1]));
        }
        assert(hi == k);
    }
    let trimmed: &[u8] = &capped[lo..hi];
    let r = parse_ip(trimmed);
    proof {
        assert(trimmed@ =~= trim_spec(capped@));
    }
    r
}

} // verus!
