//! The sending half of the peer notification protocol.
//!
//! A broadcast of the local address goes, as a UTF-8 text datagram on the
//! well-known port, to every registry entry whose address differs from the
//! local one — and to no address outside the registry. Delivery is
//! best-effort and at-most-once; planning which datagrams to send is the
//! verified part, the sends themselves happen outside the library.

use vstd::prelude::*;
use crate::addr::{IpAddress, format_ip, format_ip_spec, tokens_view};
use crate::bytes::{bytes_eq, copy_bytes};
use crate::registry::{Machine, MachineModel, machines_view};

verus! {

/// The fixed well-known UDP port peers notify one another on.
pub const NOTIFY_PORT: u16 = 21335;

/// The addresses a broadcast from `me` goes to: every entry whose address
/// differs from `me`, in registry order, and no other.
pub open spec fn targets_of(s: Seq<MachineModel>, me: Seq<u8>) -> Seq<Seq<u8>> {
    s.filter(|m: MachineModel| m.ip != me).map_values(|m: MachineModel| m.ip)
}

/// Some entry of `s` has the address `a`.
pub open spec fn is_entry_addr(s: Seq<MachineModel>, a: Seq<u8>) -> bool {
    exists|j: int| 0 <= j < s.len() && (#[trigger] s[j]).ip == a
}

/// A broadcast goes to every registry entry except the sender's own and
/// to no address outside the registry: every target differs from `me` and
/// is some entry's address, and every entry address other than `me` is
/// among the targets.
pub proof fn lemma_targets_of_membership(s: Seq<MachineModel>, me: Seq<u8>)
    ensures
        forall|k: int|
            0 <= k < targets_of(s, me).len() ==> (#[trigger] targets_of(s, me)[k]) != me,
        forall|k: int|
            0 <= k < targets_of(s, me).len() ==> is_entry_addr(s, #[trigger] targets_of(s, me)[k]),
        forall|j: int|
            0 <= j < s.len() && (#[trigger] s[j]).ip != me ==> targets_of(s, me).contains(
                s[j].ip,
            ),
{
    let pred = |m: MachineModel| m.ip != me;
    let fs = s.filter(pred);
    let targets = targets_of(s, me);
    assert forall|k: int| 0 <= k < targets.len() implies (#[trigger] targets[k]) != me
        && is_entry_addr(s, targets[k]) by {
        s.lemma_filter_pred(pred, k);
        assert(fs.contains(fs[k]));
        s.lemma_filter_contains_rev(pred, fs[k]);
        let j = choose|j: int| 0 <= j < s.len() && s[j] == fs[k];
        assert(s[j].ip == targets[k]);
    }
    assert forall|j: int| 0 <= j < s.len() && (#[trigger] s[j]).ip != me implies targets
        .contains(s[j].ip) by {
        s.lemma_filter_contains(pred, j);
        let k = choose|k: int| 0 <= k < fs.len() && fs[k] == s[j];
        assert(targets[k] == s[j].ip);
    }
}

/// The target addresses for a broadcast of `self_ip` over the given
/// snapshot, in registry order. The payload each target receives is the
/// canonical spelling of `self_ip` itself.
pub fn broadcast_targets(machines: &Vec<Machine>, self_ip: IpAddress) -> (targets: Vec<Vec<u8>>)
    ensures
        tokens_view(targets@) == targets_of(machines_view(machines@), format_ip_spec(self_ip)),
{
    let me = format_ip(self_ip);
    let mut targets: Vec<Vec<u8>> = Vec::new();
    let n = machines.len();
    let ghost mv = machines_view(machines@);
    proof {
        reveal(Seq::filter);
        assert(mv.take(0) =~= Seq::<MachineModel>::empty());
        assert(tokens_view(targets@) =~~= targets_of(mv.take(0), me@));
    }
    for i in 0..n
        invariant
            n == machines@.len(),
            mv == machines_view(machines@),
            me@ == format_ip_spec(self_ip),
            tokens_view(targets@) == targets_of(mv.take(i as int), me@),
    {
        let ghost pred = |m: MachineModel| m.ip != me@;
        proof {
            reveal(Seq::filter);
            assert(mv.take(i + 1).drop_last() =~= mv.take(i as int));
            assert(mv.take(i + 1).last() == mv[i as int]);
            assert(mv[i as int] == machines@[i as int]@);
        }
        let m = &machines[i];
        if !bytes_eq(m.ip.as_slice(), me.as_slice()) {
            let ghost old_targets = targets@;
            targets.push(copy_bytes(&m.ip));
            proof {
                reveal(Seq::filter);
                assert(mv.take(i + 1).filter(pred) == mv.take(i as int).filter(pred).push(
                    mv[i as int],
                ));
                assert(tokens_view(targets@) =~~= tokens_view(old_targets).push(
                    machines@[i as int].ip@,
                ));
                assert(tokens_view(targets@) =~~= targets_of(mv.take(i + 1), me@));
            }
        } else {
            proof {
                reveal(Seq::filter);
                assert(mv.take(i + 1).filter(pred) == mv.take(i as int).filter(pred));
                assert(tokens_view(targets@) =~~= targets_of(mv.take(i + 1), me@));
            }
        }
    }
    proof {
        assert(mv.take(n as int) =~= mv);
    }
    targets
}

} // verus!
