//! Wiring of the agent's two alert paths.
//!
//! A local alert (the monitor fired) marks this host's own entry isolated
//! and plans the peer broadcast of its address. A peer alert (the listener
//! decoded an address) marks that entry isolated and plans the firewall
//! lock. Both status transitions are one-directional: nothing here ever
//! moves an entry back to `Connected`, although the firewall interface has
//! an unlock capability — recovery is left to an operator out of band. The
//! registry update stands whether or not the planned enforcement later
//! succeeds: status reflects detection, not confirmed enforcement.

use vstd::prelude::*;
use crate::addr::{IpAddress, format_ip, format_ip_spec, tokens_view};
use crate::firewall::{FirewallRule, lock_rules, lock_rules_spec, rules_view};
use crate::notifier::{broadcast_targets, targets_of};
use crate::registry::{Registry, Status, set_status_spec};

verus! {

/// A planned peer broadcast: the payload each target receives, and the
/// target addresses in registry order.
pub struct BroadcastPlan {
    pub payload: Vec<u8>,
    pub targets: Vec<Vec<u8>>,
}

/// Local alert: mark this host's own entry isolated, then plan the
/// broadcast of its address to every other registry entry.
pub fn on_local_alert(reg: &mut Registry, self_ip: IpAddress) -> (plan: BroadcastPlan)
    ensures
        final(reg)@ == set_status_spec(old(reg)@, format_ip_spec(self_ip), Status::Isolated),
        plan.payload@ == format_ip_spec(self_ip),
        tokens_view(plan.targets@) == targets_of(final(reg)@, format_ip_spec(self_ip)),
{
    let me = format_ip(self_ip);
    reg.change_machine_state(me.as_slice(), Status::Isolated);
    let snapshot = reg.get_machines();
    let targets = broadcast_targets(&snapshot, self_ip);
    BroadcastPlan { payload: me, targets }
}

/// Peer alert: mark the reported address's entry isolated and plan the
/// firewall lock of that address.
pub fn on_peer_alert(reg: &mut Registry, reported: IpAddress) -> (rules: Vec<FirewallRule>)
    ensures
        final(reg)@ == set_status_spec(old(reg)@, format_ip_spec(reported), Status::Isolated),
        rules_view(rules@) == lock_rules_spec(reported),
{
    let text = format_ip(reported);
    reg.change_machine_state(text.as_slice(), Status::Isolated);
    lock_rules(reported)
}

} // verus!
