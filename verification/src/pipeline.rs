//! The configuration pipeline: the exact `ip`, `iptables` and `ipset`
//! command lines that tear down a prior run, build the IP set of matched
//! subnets, install the mark-based VPN routing, and flush the route cache,
//! in a strictly ordered plan. The caller executes the plan front to back,
//! stopping at the first failing command.

use vstd::prelude::*;
use vstd::string::*;
use crate::cidr::{Ipv4Cidr, spec_cidr_text, format_cidr};

verus! {

/// The stages of the configuration pipeline, in execution order.
/// Reverse-path-filter handling runs before these and touches only files,
/// so it has its own plan elsewhere.
#[derive(Clone, Copy, PartialEq, Eq, Structural, Debug)]
pub enum Stage {
    CleanupPrior,
    BuildIpSet,
    InstallRouting,
    FlushRouteCache,
}

/// The execution order of the stages.
pub open spec fn stage_rank(s: Stage) -> int {
    match s {
        Stage::CleanupPrior => 0,
        Stage::BuildIpSet => 1,
        Stage::InstallRouting => 2,
        Stage::FlushRouteCache => 3,
    }
}

/// One command of the plan, tagged with the stage it belongs to.
#[derive(Debug)]
pub struct PlannedCommand {
    pub stage: Stage,
    pub line: String,
}

/// The name of the IP set the pipeline creates and the mark rule matches.
pub open spec fn ipset_name() -> Seq<char> {
    "asusrouter_custom_vpn_ipset"@
}

/// The teardown command lines, in order.
pub open spec fn cleanup_lines() -> Seq<Seq<char>> {
    seq![
        "ip route flush table 900"@,
        "ip route del default table 900"@,
        "ip rule del table 900"@,
        "ip route flush cache"@,
        "iptables -t mangle -D PREROUTING -i br0 -m set --match-set asusrouter_custom_vpn_ipset dst -j MARK --set-mark 9"@,
        "ipset destroy asusrouter_custom_vpn_ipset"@,
    ]
}

/// The command that creates the IP set.
pub open spec fn ipset_create_line() -> Seq<char> {
    "ipset create asusrouter_custom_vpn_ipset hash:net family inet hashsize 1024 maxelem 65536"@
}

/// The command that adds one subnet to the IP set, tolerating duplicates.
pub open spec fn ipset_add_line(c: Ipv4Cidr) -> Seq<char> {
    "ipset add asusrouter_custom_vpn_ipset "@ + spec_cidr_text(c.addr, c.prefix) + " -exist"@
}

/// The routing installation command lines, in order, ending with the
/// route-cache flush.
pub open spec fn routing_lines() -> Seq<Seq<char>> {
    seq![
        "iptables -t mangle -A PREROUTING -i br0 -m set --match-set asusrouter_custom_vpn_ipset dst -j MARK --set-mark 9"@,
        "ip route add default dev wgc5 table 900"@,
        "ip rule add fwmark 9 table 900"@,
        "ip route flush cache"@,
    ]
}

/// `name` occurs contiguously inside `line`.
pub open spec fn mentions(line: Seq<char>, name: Seq<char>) -> bool {
    exists|o: int|
        0 <= o && o + name.len() <= line.len() && #[trigger] line.subrange(
            o,
            o + name.len() as int,
        ) =~= name
}

/// The teardown commands of a prior run: flush and delete the VPN routing
/// table and policy rule, flush the route cache, delete the mark rule, and
/// destroy the IP set. Issued unconditionally; the system tolerates
/// teardown of objects that do not exist.
pub fn cleanup_previous_applied_configurations() -> (r: Vec<String>)
    ensures
        r@.len() == cleanup_lines().len(),
        forall|i: int| 0 <= i < r@.len() ==> (#[trigger] r@[i])@ == cleanup_lines()[i],
{
    let mut r: Vec<String> = Vec::new();
    r.push("ip route flush table 900".to_owned());
    r.push("ip route del default table 900".to_owned());
    r.push("ip rule del table 900".to_owned());
    r.push("ip route flush cache".to_owned());
    r.push(
        "iptables -t mangle -D PREROUTING -i br0 -m set --match-set asusrouter_custom_vpn_ipset dst -j MARK --set-mark 9".to_owned(),
    );
    r.push("ipset destroy asusrouter_custom_vpn_ipset".to_owned());
    r
}

/// The commands that create the IP set and add every matched subnet to it,
/// in the subnets' order, each add tolerant of an entry already present.
pub fn configure_ipset(subnets: &Vec<Ipv4Cidr>) -> (r: Vec<String>)
    ensures
        r@.len() == 1 + subnets@.len(),
        r@[0]@ == ipset_create_line(),
        forall|k: int|
            0 <= k < subnets@.len() ==> (#[trigger] r@[k + 1])@ == ipset_add_line(subnets@[k]),
{
    let mut r: Vec<String> = Vec::new();
    r.push(
        "ipset create asusrouter_custom_vpn_ipset hash:net family inet hashsize 1024 maxelem 65536".to_owned(),
    );
    let mut k: usize = 0;
    while k < subnets.len()
        invariant
            k <= subnets@.len(),
            r@.len() == 1 + k,
            r@[0]@ == ipset_create_line(),
            forall|t: int|
                0 <= t < k ==> (#[trigger] r@[t + 1])@ == ipset_add_line(subnets@[t]),
        decreases subnets@.len() - k,
    {
        let mut line = "ipset add asusrouter_custom_vpn_ipset ".to_owned();
        line.append(format_cidr(&subnets[k]).as_str());
        line.append(" -exist");
        r.push(line);
        k = k + 1;
    }
    r
}

/// The commands that install the mark rule, the default route of the VPN
/// routing table, and the fwmark policy rule, then flush the route cache.
pub fn setup_iptables_and_vpn_routing() -> (r: Vec<String>)
    ensures
        r@.len() == routing_lines().len(),
        forall|i: int| 0 <= i < r@.len() ==> (#[trigger] r@[i])@ == routing_lines()[i],
{
    let mut r: Vec<String> = Vec::new();
    r.push(
        "iptables -t mangle -A PREROUTING -i br0 -m set --match-set asusrouter_custom_vpn_ipset dst -j MARK --set-mark 9".to_owned(),
    );
    r.push("ip route add default dev wgc5 table 900".to_owned());
    r.push("ip rule add fwmark 9 table 900".to_owned());
    r.push("ip route flush cache".to_owned());
    r
}

/// The full command plan for the matched subnets, stage-tagged and in
/// execution order: all teardown first, then the IP set creation and fills,
/// then the routing installation, then the final route-cache flush.
///
/// The stage tags never decrease along the plan — in particular every
/// `CleanupPrior` command precedes every `BuildIpSet` command — and the
/// mark rule that references the IP set by name comes after the command
/// that creates that set.
pub fn apply_plan(subnets: &Vec<Ipv4Cidr>) -> (plan: Vec<PlannedCommand>)
    ensures
        plan@.len() == 11 + subnets@.len(),
        forall|i: int|
            0 <= i < 6 ==> (#[trigger] plan@[i]).stage == Stage::CleanupPrior && plan@[i].line@
                == cleanup_lines()[i],
        plan@[6].stage == Stage::BuildIpSet && plan@[6].line@ == ipset_create_line(),
        forall|k: int|
            0 <= k < subnets@.len() ==> (#[trigger] plan@[7 + k]).stage == Stage::BuildIpSet
                && plan@[7 + k].line@ == ipset_add_line(subnets@[k]),
        forall|t: int|
            0 <= t < 3 ==> (#[trigger] plan@[7 + subnets@.len() + t]).stage
                == Stage::InstallRouting && plan@[7 + subnets@.len() + t].line@
                == routing_lines()[t],
        plan@[10 + subnets@.len() as int].stage == Stage::FlushRouteCache && plan@[10
            + subnets@.len() as int].line@ == routing_lines()[3],
        forall|i: int, j: int|
            0 <= i < j < plan@.len() ==> stage_rank((#[trigger] plan@[i]).stage) <= stage_rank(
                (#[trigger] plan@[j]).stage,
            ),
        mentions(plan@[6].line@, ipset_name()),
        mentions(plan@[7 + subnets@.len() as int].line@, ipset_name()),
{
    let mut plan: Vec<PlannedCommand> = Vec::new();
    let cleanup = cleanup_previous_applied_configurations();
    let mut i: usize = 0;
    while i < cleanup.len()
        invariant
            i <= cleanup@.len(),
            cleanup@.len() == cleanup_lines().len(),
            forall|t: int| 0 <= t < cleanup@.len() ==> (#[trigger] cleanup@[t])@
                == cleanup_lines()[t],
            plan@.len() == i,
            forall|t: int|
                0 <= t < i ==> (#[trigger] plan@[t]).stage == Stage::CleanupPrior
                    && plan@[t].line@ == cleanup_lines()[t],
        decreases cleanup@.len() - i,
    {
        let line = cleanup[i].clone();
        proof {
            assert(cleanup@[i as int]@ == cleanup_lines()[i as int]);
        }
        plan.push(PlannedCommand { stage: Stage::CleanupPrior, line });
        i = i + 1;
    }
    let fills = configure_ipset(subnets);
    let mut k: usize = 0;
    while k < fills.len()
        invariant
            k <= fills@.len(),
            fills@.len() == 1 + subnets@.len(),
            fills@[0]@ == ipset_create_line(),
            forall|t: int|
                0 <= t < subnets@.len() ==> (#[trigger] fills@[t + 1])@ == ipset_add_line(
                    subnets@[t],
                ),
            plan@.len() == 6 + k,
            forall|t: int|
                0 <= t < 6 ==> (#[trigger] plan@[t]).stage == Stage::CleanupPrior
                    && plan@[t].line@ == cleanup_lines()[t],
            forall|t: int|
                0 <= t < k ==> (#[trigger] plan@[6 + t]).stage == Stage::BuildIpSet
                    && plan@[6 + t].line@ == fills@[t]@,
        decreases fills@.len() - k,
    {
        let line = fills[k].clone();
        plan.push(PlannedCommand { stage: Stage::BuildIpSet, line });
        k = k + 1;
    }
    let routing = setup_iptables_and_vpn_routing();
    let ghost n = subnets@.len();
    proof {
        assert(plan@.len() == 7 + n);
        assert(plan@[6 + 0int].line@ == fills@[0]@);
        assert(plan@[6].line@ == fills@[0]@);
    }
    let line0 = routing[0].clone();
    plan.push(PlannedCommand { stage: Stage::InstallRouting, line: line0 });
    let line1 = routing[1].clone();
    plan.push(PlannedCommand { stage: Stage::InstallRouting, line: line1 });
    let line2 = routing[2].clone();
    plan.push(PlannedCommand { stage: Stage::InstallRouting, line: line2 });
    let line3 = routing[3].clone();
    plan.push(PlannedCommand { stage: Stage::FlushRouteCache, line: line3 });
    proof {
        assert(forall|t: int|
            0 <= t < 3 ==> (#[trigger] plan@[7 + n + t]).stage == Stage::InstallRouting
                && plan@[7 + n + t].line@ == routing_lines()[t]);
        assert forall|k2: int| 0 <= k2 < n implies (#[trigger] plan@[7 + k2]).stage
            == Stage::BuildIpSet && plan@[7 + k2].line@ == ipset_add_line(subnets@[k2]) by {
            assert(plan@[6 + (k2 + 1)].stage == Stage::BuildIpSet && plan@[6 + (k2 + 1)].line@
                == fills@[k2 + 1]@);
        }
        assert forall|i2: int| 0 <= i2 < plan@.len() implies stage_rank(
            (#[trigger] plan@[i2]).stage,
        ) == (if i2 < 6 {
            0int
        } else if i2 < 7 + n {
            1int
        } else if i2 < 10 + n {
            2int
        } else {
            3int
        }) by {
            if i2 < 6 {
            } else if i2 == 6 {
                assert(plan@[6 + 0int].stage == Stage::BuildIpSet);
            } else if i2 < 7 + n {
                assert(plan@[6 + (i2 - 6)].stage == Stage::BuildIpSet);
            } else if i2 < 10 + n {
                assert(plan@[7 + n + (i2 - 7 - n)].stage == Stage::InstallRouting);
            } else {
                assert(i2 == 10 + n);
            }
        }
        assert(mentions(plan@[6].line@, ipset_name())) by {
            let line = ipset_create_line();
            let name = ipset_name();
            reveal_strlit("asusrouter_custom_vpn_ipset");
            reveal_strlit(
                "ipset create asusrouter_custom_vpn_ipset hash:net family inet hashsize 1024 maxelem 65536",
            );
            assert(line.subrange(13, 13 + name.len() as int) =~= name);
        }
        assert(mentions(plan@[7 + n as int].line@, ipset_name())) by {
            let line = routing_lines()[0];
            let name = ipset_name();
            reveal_strlit("asusrouter_custom_vpn_ipset");
            reveal_strlit(
                "iptables -t mangle -A PREROUTING -i br0 -m set --match-set asusrouter_custom_vpn_ipset dst -j MARK --set-mark 9",
            );
            assert(line.subrange(59, 59 + name.len() as int) =~= name);
        }
    }
    plan
}

} // verus!
