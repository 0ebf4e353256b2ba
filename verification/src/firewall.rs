//! Planning of packet-filter rules.
//!
//! The firewall itself is an external collaborator with a narrow interface:
//! lock an address, unlock an address, each by installing or removing one
//! drop rule per traffic direction. The verified part is the plan — which
//! rules, in which order, against which address family and textual address;
//! running the resulting commands, and swallowing their failures
//! (enforcement is best-effort), happens outside the library.

use vstd::prelude::*;
use crate::addr::{IpAddress, format_ip, format_ip_spec};

verus! {

/// Whether a rule is being installed or removed.
#[derive(Clone, Copy, PartialEq, Eq, Structural, Debug)]
pub enum RuleOp {
    Add,
    Delete,
}

/// The traffic direction a rule applies to: packets from the address
/// (`Input`) or to it (`Output`).
#[derive(Clone, Copy, PartialEq, Eq, Structural, Debug)]
pub enum Chain {
    Input,
    Output,
}

/// The address family, which selects the packet-filter backend.
#[derive(Clone, Copy, PartialEq, Eq, Structural, Debug)]
pub enum Family {
    V4,
    V6,
}

/// One packet-filter rule: drop traffic in `chain` for the address spelt
/// `addr_text`, under the backend for `family`.
pub struct FirewallRule {
    pub op: RuleOp,
    pub chain: Chain,
    pub family: Family,
    pub addr_text: Vec<u8>,
}

/// The mathematical content of a `FirewallRule`.
#[verifier::ext_equal]
pub ghost struct RuleModel {
    pub op: RuleOp,
    pub chain: Chain,
    pub family: Family,
    pub addr_text: Seq<u8>,
}

impl View for FirewallRule {
    type V = RuleModel;

    open spec fn view(&self) -> RuleModel {
        RuleModel {
            op: self.op,
            chain: self.chain,
            family: self.family,
            addr_text: self.addr_text@,
        }
    }
}

/// The family of an address.
pub open spec fn family_spec(ip: IpAddress) -> Family {
    match ip {
        IpAddress::V4(..) => Family::V4,
        IpAddress::V6(..) => Family::V6,
    }
}

/// The two rules that block `ip`: drop its incoming, then its outgoing
/// traffic.
pub open spec fn lock_rules_spec(ip: IpAddress) -> Seq<RuleModel> {
    seq![
        RuleModel {
            op: RuleOp::Add,
            chain: Chain::Input,
            family: family_spec(ip),
            addr_text: format_ip_spec(ip),
        },
        RuleModel {
            op: RuleOp::Add,
            chain: Chain::Output,
            family: family_spec(ip),
            addr_text: format_ip_spec(ip),
        },
    ]
}

/// The two rules that unblock `ip`: remove what `lock_rules` installed.
pub open spec fn unlock_rules_spec(ip: IpAddress) -> Seq<RuleModel> {
    seq![
        RuleModel {
            op: RuleOp::Delete,
            chain: Chain::Input,
            family: family_spec(ip),
            addr_text: format_ip_spec(ip),
        },
        RuleModel {
            op: RuleOp::Delete,
            chain: Chain::Output,
            family: family_spec(ip),
            addr_text: format_ip_spec(ip),
        },
    ]
}

/// The models of a sequence of rules, in order.
pub open spec fn rules_view(s: Seq<FirewallRule>) -> Seq<RuleModel> {
    s.map_values(|r: FirewallRule| r@)
}

fn rules_for(ip: IpAddress, op: RuleOp) -> (r: Vec<FirewallRule>)
    ensures
        rules_view(r@) == (if op is Add {
            lock_rules_spec(ip)
        } else {
            unlock_rules_spec(ip)
        }),
{
    let family = match ip {
        IpAddress::V4(..) => Family::V4,
        IpAddress::V6(..) => Family::V6,
    };
    let mut out: Vec<FirewallRule> = Vec::new();
    out.push(
        FirewallRule { op, chain: Chain::Input, family, addr_text: format_ip(ip) },
    );
    out.push(
        FirewallRule { op, chain: Chain::Output, family, addr_text: format_ip(ip) },
    );
    proof {
        if op is Add {
            assert(rules_view(out@) =~~= lock_rules_spec(ip));
        } else {
            assert(rules_view(out@) =~~= unlock_rules_spec(ip));
        }
    }
    out
}

/// Plans the block of `ip`: the two drop rules, in order.
pub fn lock_rules(ip: IpAddress) -> (r: Vec<FirewallRule>)
    ensures
        rules_view(r@) == lock_rules_spec(ip),
{
    rules_for(ip, RuleOp::Add)
}

/// Plans the unblock of `ip`: removal of the two drop rules, in order.
pub fn unlock_rules(ip: IpAddress) -> (r: Vec<FirewallRule>)
    ensures
        rules_view(r@) == unlock_rules_spec(ip),
{
    rules_for(ip, RuleOp::Delete)
}

} // verus!
