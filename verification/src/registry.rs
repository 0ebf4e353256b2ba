//! The registry of fleet members.
//!
//! An ordered sequence of `Machine` entries, owned by whoever composes the
//! agent; callers that share it across threads wrap it in their own lock and
//! hold the lock for the duration of a single call. Entries are created in
//! bulk from a seed list of addresses, read back as independent snapshots,
//! and mutated only one entry's status at a time, keyed by the exact textual
//! address. Address uniqueness is assumed, not enforced: with duplicate
//! addresses a status update touches only the first match.

use vstd::prelude::*;
use crate::addr::{IpAddress, format_ip, format_ip_spec};
use crate::bytes::{bytes_eq, copy_bytes};
use crate::digits::{dec_digits, format_dec_u64};

verus! {

/// Connectivity status of a fleet member. `Isolated` is terminal for the
/// life of the process: no transition back to `Connected` is ever made.
#[derive(Clone, Copy, PartialEq, Eq, Structural, Debug)]
pub enum Status {
    Connected,
    Isolated,
}

/// One fleet member's record. `ip` is the canonical textual address and the
/// lookup key; `mac` and `last_update` are placeholders that no operation
/// derives or updates.
pub struct Machine {
    /// Stable ordinal: 1-based position in the seed list.
    pub id: u64,
    /// Display label; defaults to the decimal spelling of `id`.
    pub name: Vec<u8>,
    /// Canonical textual form of the member's address.
    pub ip: Vec<u8>,
    /// Placeholder hardware address, not derived from any probe.
    pub mac: Vec<u8>,
    /// Placeholder timestamp, never updated.
    pub last_update: Vec<u8>,
    /// Current connectivity status.
    pub status: Status,
}

/// The mathematical content of a `Machine`.
#[verifier::ext_equal]
pub ghost struct MachineModel {
    pub id: int,
    pub name: Seq<u8>,
    pub ip: Seq<u8>,
    pub mac: Seq<u8>,
    pub last_update: Seq<u8>,
    pub status: Status,
}

impl View for Machine {
    type V = MachineModel;

    open spec fn view(&self) -> MachineModel {
        MachineModel {
            id: self.id as int,
            name: self.name@,
            ip: self.ip@,
            mac: self.mac@,
            last_update: self.last_update@,
            status: self.status,
        }
    }
}

/// The models of a sequence of machines, in order.
pub open spec fn machines_view(s: Seq<Machine>) -> Seq<MachineModel> {
    s.map_values(|m: Machine| m@)
}

/// The placeholder hardware address, `AA:BB:CC:DD:EE:FF`.
pub open spec fn mac_placeholder() -> Seq<u8> {
    seq![
        0x41u8, 0x41, 0x3A, 0x42, 0x42, 0x3A, 0x43, 0x43, 0x3A, 0x44, 0x44, 0x3A, 0x45, 0x45,
        0x3A, 0x46, 0x46,
    ]
}

/// The placeholder timestamp, `N/A`.
pub open spec fn last_update_placeholder() -> Seq<u8> {
    seq![0x4Eu8, 0x2F, 0x41]
}

fn mac_placeholder_vec() -> (r: Vec<u8>)
    ensures
        r@ == mac_placeholder(),
{
    let mut v: Vec<u8> = Vec::new();
    v.push(0x41);
    v.push(0x41);
    v.push(0x3A);
    v.push(0x42);
    v.push(0x42);
    v.push(0x3A);
    v.push(0x43);
    v.push(0x43);
    v.push(0x3A);
    v.push(0x44);
    v.push(0x44);
    v.push(0x3A);
    v.push(0x45);
    v.push(0x45);
    v.push(0x3A);
    v.push(0x46);
    v.push(0x46);
    proof {
        assert(v@ =~= mac_placeholder());
    }
    v
}

fn last_update_placeholder_vec() -> (r: Vec<u8>)
    ensures
        r@ == last_update_placeholder(),
{
    let mut v: Vec<u8> = Vec::new();
    v.push(0x4E);
    v.push(0x2F);
    v.push(0x41);
    proof {
        assert(v@ =~= last_update_placeholder());
    }
    v
}

/// The entry a bulk load creates for the address at 0-based position `i`.
pub open spec fn loaded_machine(i: int, ip: IpAddress) -> MachineModel {
    MachineModel {
        id: i + 1,
        name: dec_digits((i + 1) as nat),
        ip: format_ip_spec(ip),
        mac: mac_placeholder(),
        last_update: last_update_placeholder(),
        status: Status::Connected,
    }
}

/// The 0-based position of the first entry whose address is `ip`, or
/// `s.len()` if there is none.
pub open spec fn match_index(s: Seq<MachineModel>, ip: Seq<u8>) -> int
    decreases s.len(),
{
    if s.len() == 0 {
        0
    } else if s[0].ip == ip {
        0
    } else {
        1 + match_index(s.drop_first(), ip)
    }
}

/// `m` with its status replaced.
pub open spec fn with_status(m: MachineModel, st: Status) -> MachineModel {
    MachineModel { status: st, ..m }
}

/// The registry after a status update: the first entry whose address is
/// `ip` gets status `st`; everything else, and everything when no entry
/// matches, is unchanged.
pub open spec fn set_status_spec(s: Seq<MachineModel>, ip: Seq<u8>, st: Status) -> Seq<
    MachineModel,
> {
    let i = match_index(s, ip);
    if i < s.len() {
        s.update(i, with_status(s[i], st))
    } else {
        s
    }
}

/// `match_index` finds the first match, if any.
pub proof fn lemma_match_index(s: Seq<MachineModel>, ip: Seq<u8>)
    ensures
        0 <= match_index(s, ip) <= s.len(),
        match_index(s, ip) < s.len() ==> s[match_index(s, ip)].ip == ip,
        forall|j: int| 0 <= j < match_index(s, ip) ==> s[j].ip != ip,
    decreases s.len(),
{
    if s.len() > 0 && s[0].ip != ip {
        lemma_match_index(s.drop_first(), ip);
        let rest = s.drop_first();
        assert forall|j: int| 0 <= j < match_index(s, ip) implies s[j].ip != ip by {
            if j > 0 {
                assert(rest[j - 1] == s[j]);
                assert(rest[j - 1].ip != ip);
            }
        }
    }
}

/// The shared, in-order collection of known fleet members.
pub struct Registry {
    /// The entries, in seed-list order.
    pub machines: Vec<Machine>,
}

impl View for Registry {
    type V = Seq<MachineModel>;

    open spec fn view(&self) -> Seq<MachineModel> {
        machines_view(self.machines@)
    }
}

impl Registry {
    /// An empty registry.
    pub fn new() -> (r: Registry)
        ensures
            r@ == Seq::<MachineModel>::empty(),
    {
        let r = Registry { machines: Vec::new() };
        proof {
            assert(r@ =~~= Seq::<MachineModel>::empty());
        }
        r
    }

    /// Replaces the entire contents with one entry per address, in input
    /// order, each `Connected`, with `id` and `name` the 1-based position.
    /// Prior state, including any isolations, is discarded.
    pub fn from_list(&mut self, ip_list: Vec<IpAddress>)
        ensures
            final(self)@.len() == ip_list@.len(),
            forall|i: int|
                0 <= i < ip_list@.len() ==> final(self)@[i] == loaded_machine(i, ip_list@[i]),
    {
        self.machines = Vec::new();
        let n = ip_list.len();
        for i in 0..n
            invariant
                n == ip_list@.len(),
                self.machines@.len() == i,
                forall|j: int|
                    0 <= j < i ==> machines_view(self.machines@)[j] == loaded_machine(
                        j,
                        ip_list@[j],
                    ),
        {
            let id: u64 = (i + 1) as u64;
            let m = Machine {
                id,
                name: format_dec_u64(id),
                ip: format_ip(ip_list[i]),
                mac: mac_placeholder_vec(),
                last_update: last_update_placeholder_vec(),
                status: Status::Connected,
            };
            let ghost old_ms = self.machines@;
            self.machines.push(m);
            proof {
                assert forall|j: int| 0 <= j < i + 1 implies machines_view(self.machines@)[j]
                    == loaded_machine(j, ip_list@[j]) by {
                    if j < i {
                        assert(self.machines@[j] == old_ms[j]);
                        assert(machines_view(old_ms)[j] == loaded_machine(j, ip_list@[j]));
                    } else {
                        assert(self.machines@[j] == m);
                        assert(m@ =~= loaded_machine(j, ip_list@[j]));
                    }
                }
            }
        }
    }

    /// An independent snapshot of the entries, in order.
    pub fn get_machines(&self) -> (r: Vec<Machine>)
        ensures
            machines_view(r@) == self@,
    {
        let mut out: Vec<Machine> = Vec::new();
        let n = self.machines.len();
        for i in 0..n
            invariant
                n == self.machines@.len(),
                out@.len() == i,
                forall|j: int|
                    0 <= j < i ==> machines_view(out@)[j] == machines_view(self.machines@)[j],
        {
            let m = &self.machines[i];
            let copy = Machine {
                id: m.id,
                name: copy_bytes(&m.name),
                ip: copy_bytes(&m.ip),
                mac: copy_bytes(&m.mac),
                last_update: copy_bytes(&m.last_update),
                status: m.status,
            };
            let ghost old_out = out@;
            out.push(copy);
            proof {
                assert forall|j: int| 0 <= j < i + 1 implies machines_view(out@)[j]
                    == machines_view(self.machines@)[j] by {
                    if j < i {
                        assert(out@[j] == old_out[j]);
                        assert(machines_view(old_out)[j] == machines_view(self.machines@)[j]);
                    } else {
                        assert(out@[j] == copy);
                        assert(copy@ =~= self.machines@[j]@);
                    }
                }
            }
        }
        proof {
            assert(machines_view(out@) =~~= self@);
        }
        out
    }

    /// Sets the status of the first entry whose address equals `ip`; when
    /// no entry matches, this is a silent no-op, not an error.
    pub fn change_machine_state(&mut self, ip: &[u8], new_status: Status)
        ensures
            final(self)@ == set_status_spec(old(self)@, ip@, new_status),
    {
        let n = self.machines.len();
        for i in 0..n
            invariant
                n == self.machines@.len(),
                self.machines@ == old(self).machines@,
                forall|j: int| 0 <= j < i ==> machines_view(self.machines@)[j].ip != ip@,
        {
            if bytes_eq(self.machines[i].ip.as_slice(), ip) {
                let ghost pre = self@;
                let m = self.machines.remove(i);
                let m2 = Machine {
                    id: m.id,
                    name: m.name,
                    ip: m.ip,
                    mac: m.mac,
                    last_update: m.last_update,
                    status: new_status,
                };
                self.machines.insert(i, m2);
                proof {
                    lemma_match_index(pre, ip@);
                    assert(pre[i as int].ip == ip@);
                    assert(match_index(pre, ip@) == i) by {
                        if match_index(pre, ip@) < i {
                            assert(machines_view(old(self).machines@)[match_index(pre, ip@)].ip
                                != ip@);
                        }
                    }
                    assert(m2@ =~= with_status(pre[i as int], new_status));
                    assert(self@ =~~= pre.update(i as int, with_status(pre[i as int], new_status)));
                }
                return;
            }
        }
        proof {
            lemma_match_index(self@, ip@);
            assert(match_index(self@, ip@) == n) by {
                if match_index(self@, ip@) < n {
                    assert(machines_view(self.machines@)[match_index(self@, ip@)].ip != ip@);
                }
            }
        }
    }
}

/// A status update whose address matches no entry changes nothing.
pub proof fn lemma_set_status_no_match(s: Seq<MachineModel>, ip: Seq<u8>, st: Status)
    requires
        forall|j: int| 0 <= j < s.len() ==> (#[trigger] s[j]).ip != ip,
    ensures
        set_status_spec(s, ip, st) == s,
{
    lemma_match_index(s, ip);
    if match_index(s, ip) < s.len() {
        assert(s[match_index(s, ip)].ip != ip);
    }
}

/// A status update whose address matches exactly one entry replaces that
/// entry's status and leaves every other entry unchanged.
pub proof fn lemma_set_status_single_match(s: Seq<MachineModel>, ip: Seq<u8>, st: Status, k: int)
    requires
        0 <= k < s.len(),
        s[k].ip == ip,
        forall|j: int| 0 <= j < s.len() && j != k ==> (#[trigger] s[j]).ip != ip,
    ensures
        set_status_spec(s, ip, st) == s.update(k, with_status(s[k], st)),
{
    lemma_match_index(s, ip);
    let mi = match_index(s, ip);
    if mi < s.len() && mi != k {
        assert(s[mi].ip != ip);
    }
    if mi == s.len() {
        assert(s[k].ip != ip);
    }
}

proof fn lemma_match_index_same_ips(s1: Seq<MachineModel>, s2: Seq<MachineModel>, ip: Seq<u8>)
    requires
        s1.len() == s2.len(),
        forall|j: int| 0 <= j < s1.len() ==> (#[trigger] s1[j]).ip == s2[j].ip,
    ensures
        match_index(s1, ip) == match_index(s2, ip),
    decreases s1.len(),
{
    if s1.len() > 0 {
        assert(s1[0].ip == s2[0].ip);
        if s1[0].ip != ip {
            let r1 = s1.drop_first();
            let r2 = s2.drop_first();
            assert(forall|j: int| 0 <= j < r1.len() ==> (#[trigger] r1[j]).ip == r2[j].ip) by {
                assert(forall|j: int| 0 <= j < r1.len() ==> r1[j] == s1[j + 1] && r2[j] == s2[
                    j + 1
                ]);
            }
            lemma_match_index_same_ips(r1, r2, ip);
        }
    }
}

/// Repeating a status update with the same address and status changes
/// nothing more: one call and many calls are indistinguishable.
pub proof fn lemma_set_status_idempotent(s: Seq<MachineModel>, ip: Seq<u8>, st: Status)
    ensures
        set_status_spec(set_status_spec(s, ip, st), ip, st) == set_status_spec(s, ip, st),
{
    lemma_match_index(s, ip);
    let mi = match_index(s, ip);
    if mi < s.len() {
        let s1 = s.update(mi, with_status(s[mi], st));
        assert(forall|j: int| 0 <= j < s.len() ==> (#[trigger] s1[j]).ip == s[j].ip);
        lemma_match_index_same_ips(s1, s, ip);
        assert(match_index(s1, ip) == mi);
        assert(with_status(s1[mi], st) =~= s1[mi]);
        assert(s1.update(mi, with_status(s1[mi], st)) =~~= s1);
    }
}

} // verus!
