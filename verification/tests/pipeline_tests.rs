use asus_router::cidr::parse_cidr;
use asus_router::command::{resolve_cmd_and_args, prepare_command};
use asus_router::errors::RouterError;
use asus_router::pipeline::{
    Stage, cleanup_previous_applied_configurations, configure_ipset,
    setup_iptables_and_vpn_routing, apply_plan,
};
use asus_router::rpfilter::{InterfaceState, FsAction, disable_rp_filter_plan};
use asus_router::inputs::{parse_subnet_list, check_resolved};
use asus_router::jsontext::{to_json_array, parse_json_array, serialize_subnets, parse_subnets};

#[test]
fn tokenizes_on_whitespace() {
    let (cmd, args) = resolve_cmd_and_args("ip route flush cache").unwrap();
    assert_eq!(cmd, "ip");
    assert_eq!(args, vec!["route", "flush", "cache"]);
}

#[test]
fn tokenizes_repeated_whitespace() {
    let (cmd, args) = resolve_cmd_and_args("  iptables\t-t  mangle ").unwrap();
    assert_eq!(cmd, "iptables");
    assert_eq!(args, vec!["-t", "mangle"]);
}

#[test]
fn empty_command_yields_nothing() {
    assert!(resolve_cmd_and_args("").is_none());
    assert!(resolve_cmd_and_args("   \t ").is_none());
}

#[test]
fn prepare_command_rejects_empty_line() {
    match prepare_command("") {
        Err(RouterError::InvalidCommand(t)) => assert_eq!(t, ""),
        _ => panic!("expected an invalid-command error"),
    }
    let inv = prepare_command("ip route flush cache").unwrap();
    assert_eq!(inv.program, "ip");
    assert_eq!(inv.args, vec!["route", "flush", "cache"]);
}

#[test]
fn cleanup_commands_are_exact() {
    let cmds = cleanup_previous_applied_configurations();
    assert_eq!(cmds, vec![
        "ip route flush table 900",
        "ip route del default table 900",
        "ip rule del table 900",
        "ip route flush cache",
        "iptables -t mangle -D PREROUTING -i br0 -m set --match-set asusrouter_custom_vpn_ipset dst -j MARK --set-mark 9",
        "ipset destroy asusrouter_custom_vpn_ipset",
    ]);
}

#[test]
fn ipset_commands_are_exact() {
    let subnets = vec![parse_cidr("1.2.3.0/24").unwrap()];
    let cmds = configure_ipset(&subnets);
    assert_eq!(cmds, vec![
        "ipset create asusrouter_custom_vpn_ipset hash:net family inet hashsize 1024 maxelem 65536",
        "ipset add asusrouter_custom_vpn_ipset 1.2.3.0/24 -exist",
    ]);
}

#[test]
fn routing_commands_are_exact() {
    let cmds = setup_iptables_and_vpn_routing();
    assert_eq!(cmds, vec![
        "iptables -t mangle -A PREROUTING -i br0 -m set --match-set asusrouter_custom_vpn_ipset dst -j MARK --set-mark 9",
        "ip route add default dev wgc5 table 900",
        "ip rule add fwmark 9 table 900",
        "ip route flush cache",
    ]);
}

#[test]
fn plan_orders_stages() {
    let subnets = vec![
        parse_cidr("1.2.3.0/24").unwrap(),
        parse_cidr("9.9.9.0/24").unwrap(),
    ];
    let plan = apply_plan(&subnets);
    assert_eq!(plan.len(), 13);
    let rank = |s: &Stage| match s {
        Stage::CleanupPrior => 0,
        Stage::BuildIpSet => 1,
        Stage::InstallRouting => 2,
        Stage::FlushRouteCache => 3,
    };
    for w in plan.windows(2) {
        assert!(rank(&w[0].stage) <= rank(&w[1].stage));
    }
    let create_at = plan
        .iter()
        .position(|p| p.line.starts_with("ipset create"))
        .unwrap();
    let mark_at = plan
        .iter()
        .position(|p| p.line.contains("-A PREROUTING"))
        .unwrap();
    assert!(create_at < mark_at);
    assert!(plan[create_at].line.contains("asusrouter_custom_vpn_ipset"));
    assert!(plan[mark_at].line.contains("asusrouter_custom_vpn_ipset"));
    assert!(plan[..create_at].iter().all(|p| p.stage == Stage::CleanupPrior));
}

#[test]
fn rp_filter_plan_backs_up_before_overwriting() {
    let ifaces = vec![
        InterfaceState { name: "br0".to_string(), rp_filter: Some("1".to_string()) },
        InterfaceState { name: "lo".to_string(), rp_filter: None },
    ];
    let plan = disable_rp_filter_plan(&ifaces);
    assert_eq!(plan.len(), 4);
    match &plan[0] {
        FsAction::EnsureDir(p) => assert_eq!(p, "/tmp/home/root/backup"),
        _ => panic!("expected the backup root first"),
    }
    match &plan[1] {
        FsAction::EnsureDir(p) => assert_eq!(p, "/tmp/home/root/backup/br0"),
        _ => panic!("expected the interface backup directory"),
    }
    match &plan[2] {
        FsAction::WriteFile(p, c) => {
            assert_eq!(p, "/tmp/home/root/backup/br0/rp_filter");
            assert_eq!(c, "1");
        },
        _ => panic!("expected the backup write"),
    }
    match &plan[3] {
        FsAction::WriteFile(p, c) => {
            assert_eq!(p, "/proc/sys/net/ipv4/conf/br0/rp_filter");
            assert_eq!(c, "0");
        },
        _ => panic!("expected the live overwrite"),
    }
}

#[test]
fn rp_filter_plan_skips_interfaces_without_control() {
    let ifaces = vec![InterfaceState { name: "lo".to_string(), rp_filter: None }];
    let plan = disable_rp_filter_plan(&ifaces);
    assert_eq!(plan.len(), 1);
}

#[test]
fn json_array_is_exact() {
    let items = vec!["34.64.0.0/10".to_string(), "64.233.160.0/19".to_string()];
    assert_eq!(to_json_array(&items), "[\"34.64.0.0/10\",\"64.233.160.0/19\"]");
    let empty: Vec<String> = Vec::new();
    assert_eq!(to_json_array(&empty), "[]");
}

#[test]
fn json_array_round_trips() {
    let items = vec!["34.64.0.0/10".to_string(), "64.233.160.0/19".to_string()];
    let text = to_json_array(&items);
    assert_eq!(parse_json_array(&text).unwrap(), items);
    assert_eq!(parse_json_array("[]").unwrap(), Vec::<String>::new());
    assert!(parse_json_array("").is_none());
    assert!(parse_json_array("[\"a\"").is_none());
}

#[test]
fn discovery_output_round_trips() {
    let subnets = vec![
        parse_cidr("34.64.0.0/10").unwrap(),
        parse_cidr("64.233.160.0/19").unwrap(),
    ];
    let text = serialize_subnets(&subnets);
    assert_eq!(text, "[\"34.64.0.0/10\",\"64.233.160.0/19\"]");
    assert_eq!(parse_subnets(&text).unwrap(), subnets);
}

#[test]
fn subnet_list_parses_in_order() {
    let v = parse_subnet_list("1.2.3.0/24,10.0.0.0/8").unwrap();
    assert_eq!(v, vec![
        parse_cidr("1.2.3.0/24").unwrap(),
        parse_cidr("10.0.0.0/8").unwrap(),
    ]);
}

#[test]
fn subnet_list_rejects_empty_and_malformed() {
    assert!(matches!(parse_subnet_list(""), Err(RouterError::Parse(t)) if t.is_empty()));
    match parse_subnet_list("1.2.3.0/24,bad") {
        Err(RouterError::Parse(t)) => assert_eq!(t, "bad"),
        _ => panic!("expected a parse error"),
    }
}

#[test]
fn empty_resolution_is_a_failure() {
    match check_resolved("a.example", Vec::new()) {
        Err(RouterError::Resolution(h)) => assert_eq!(h, "a.example"),
        _ => panic!("expected a resolution error"),
    }
    let addrs = vec![0x01020304u32];
    assert_eq!(check_resolved("a.example", addrs.clone()).unwrap(), addrs);
}

#[test]
fn remaining_error_variants_carry_their_context() {
    let fetch = RouterError::Fetch("catalog".to_string());
    let fs = RouterError::Filesystem("/tmp/home/root/backup".to_string());
    let exec = RouterError::Execution("ip route flush cache".to_string());
    assert!(matches!(fetch, RouterError::Fetch(t) if t == "catalog"));
    assert!(matches!(fs, RouterError::Filesystem(t) if t == "/tmp/home/root/backup"));
    assert!(matches!(exec, RouterError::Execution(t) if t == "ip route flush cache"));
}
