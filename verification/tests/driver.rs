use dn42_roa_generator::config::AppConfig;
use dn42_roa_generator::model::record::RecordFile;
use dn42_roa_generator::parser::dns::ReverseRecordCounter;
use dn42_roa_generator::task::{
    generate_zone_files, generate_zone_report, git_arguments, next_step, sync_plan,
    zone_files_at, zone_report_at, DriverAction, DriverState, SyncPlan, TaskKind,
};

#[test]
fn a_cycle_refreshes_then_runs_the_tasks_in_order_then_waits() {
    let mut state = DriverState::Starting;
    let mut actions = Vec::new();
    for _ in 0..8 {
        let (next, action, _) = next_step(state, true, 300);
        actions.push(action);
        state = next;
    }
    assert_eq!(
        actions,
        vec![
            DriverAction::RefreshRegistry,
            DriverAction::RunTask(TaskKind::GenerateRoa),
            DriverAction::RunTask(TaskKind::GenerateDnsZones),
            DriverAction::Sleep(300),
            DriverAction::RefreshRegistry,
            DriverAction::RunTask(TaskKind::GenerateRoa),
            DriverAction::RunTask(TaskKind::GenerateDnsZones),
            DriverAction::Sleep(300),
        ]
    );
    assert_eq!(state, DriverState::Waiting);
}

#[test]
fn a_failure_is_reported_and_stops_nothing() {
    assert_eq!(
        next_step(DriverState::Refreshing, false, 60),
        (DriverState::Running(0), DriverAction::RunTask(TaskKind::GenerateRoa), true)
    );
    assert_eq!(
        next_step(DriverState::Running(0), false, 60),
        (DriverState::Running(1), DriverAction::RunTask(TaskKind::GenerateDnsZones), true)
    );
    assert_eq!(
        next_step(DriverState::Running(1), false, 60),
        (DriverState::Waiting, DriverAction::Sleep(60), true)
    );
    assert_eq!(
        next_step(DriverState::Running(1), true, 60),
        (DriverState::Waiting, DriverAction::Sleep(60), false)
    );
    assert_eq!(
        next_step(DriverState::Waiting, false, 60),
        (DriverState::Refreshing, DriverAction::RefreshRegistry, false)
    );
    // A place past the last task ends the cycle as the last task does.
    assert_eq!(
        next_step(DriverState::Running(usize::MAX), true, 60),
        (DriverState::Waiting, DriverAction::Sleep(60), false)
    );
}

#[test]
fn task_names() {
    assert_eq!(TaskKind::at(0), TaskKind::GenerateRoa);
    assert_eq!(TaskKind::at(1), TaskKind::GenerateDnsZones);
    assert_eq!(TaskKind::GenerateRoa.name(), "Generate ROA");
    assert_eq!(TaskKind::GenerateDnsZones.name(), "Generate DNS Authoritative Zones");
}

#[test]
fn registry_is_cloned_pulled_or_left() {
    assert_eq!(sync_plan(false, false), SyncPlan::Clone);
    assert_eq!(sync_plan(false, true), SyncPlan::Clone);
    assert_eq!(sync_plan(true, true), SyncPlan::Pull);
    assert_eq!(sync_plan(true, false), SyncPlan::Skip);
    assert_eq!(
        git_arguments(SyncPlan::Clone, "git@git.dn42.dev:dn42/registry.git", "./registry"),
        vec!["clone", "git@git.dn42.dev:dn42/registry.git", "./registry"]
    );
    assert_eq!(
        git_arguments(SyncPlan::Pull, "url", "./registry"),
        vec!["-C", "./registry", "pull", "--rebase"]
    );
    assert!(git_arguments(SyncPlan::Skip, "url", "path").is_empty());
}

#[test]
fn zone_files_of_a_cycle() {
    let dns = vec![RecordFile::new(
        "data/dns/burble.dn42".to_string(),
        "domain: burble.dn42\nnserver: ns1.burble.dn42 172.20.129.1\n",
    )];
    let inetnum = vec![RecordFile::new(
        "data/inetnum/172.20.129.0_24".to_string(),
        "cidr: 172.20.129.0/24\nnserver: ns1.burble.dn42\n",
    )];
    let files = zone_files_at(&dns, &inetnum, "ns.primary.dn42.", "hostmaster.dn42.", 42);
    let now = generate_zone_files(&dns, &inetnum, "ns.primary.dn42.", "hostmaster.dn42.");
    assert_eq!(now.len(), files.len());
    for (a, b) in now.iter().zip(files.iter()) {
        assert_eq!(a.origin, b.origin);
        let tail = |text: &str| text.lines().skip(4).collect::<Vec<&str>>().join("\n");
        assert_eq!(tail(&a.content), tail(&b.content));
    }
    let origins: Vec<&str> = files.iter().map(|f| f.origin.as_str()).collect();
    assert_eq!(origins, vec!["dn42", "in-addr.arpa", "ip6.arpa"]);
    let head = |origin: &str| {
        format!(
            "$TTL 3600\n$ORIGIN {}.\n@ IN SOA ns.primary.dn42. hostmaster.dn42. (\n\
             \x20               42 ; serial number\n\
             \x20               3600 ; refresh\n\
             \x20               600 ; update retry\n\
             \x20               604800 ; expiry\n\
             \x20               1440 ) ; minimum\n\n",
            origin
        )
    };
    assert_eq!(
        files[0].content,
        head("dn42")
            + "burble          IN  NS   ns1.burble.dn42.\n\
               ns1.burble      IN  A    172.20.129.1\n"
    );
    assert_eq!(
        files[1].content,
        head("in-addr.arpa")
            + "129.20.172      IN  NS   ns1.burble.dn42.\n\
               @               IN  NS   ns.primary.dn42.\n"
    );
    assert_eq!(files[2].content, head("ip6.arpa") + "@          IN  NS   ns.primary.dn42.\n");
}

#[test]
fn default_settings() {
    let c = AppConfig::default();
    assert_eq!(c.listen_address, "0.0.0.0:8080");
    assert_eq!(c.roa_endpoint, "/roa.json");
    assert_eq!(c.git_repo_url, "git@git.dn42.dev:dn42/registry.git");
    assert_eq!(c.git_repo_local_path, "./registry");
    assert_eq!(c.git_repo_ipv4_route_relative_path, "data/route");
    assert_eq!(c.git_repo_ipv6_route_relative_path, "data/route6");
    assert_eq!(c.update_interval_seconds, 300);
    assert_eq!(c.clone().update_interval_seconds, 300);
}

#[test]
fn zone_report_of_a_cycle() {
    let dns = vec![
        RecordFile::new(
            "dns/a".to_string(),
            "domain: a.dn42\nnserver: ns.a.dn42\nnserver: ns.other.neo 10.0.0.1\n",
        ),
        RecordFile::new("dns/b".to_string(), "domain: b.dn42\nnserver: 7.ipv4.registry-sync.dn42\n"),
        RecordFile::new("dns/c".to_string(), "descr: nothing\n"),
    ];
    let inetnum = vec![
        RecordFile::new("inetnum/a".to_string(), "cidr: 172.20.0.0/24\nnserver: ns.a.dn42\n"),
        RecordFile::new("inetnum/b".to_string(), "cidr: 172.20.1.0/25\nnserver: ns.a.dn42\n"),
        RecordFile::new("inetnum/c".to_string(), "cidr: fd42::/17\nnserver: ns.a.dn42\n"),
        RecordFile::new("inetnum/d".to_string(), "cidr: nothing\nnserver: ns.a.dn42\n"),
    ];
    let report = zone_report_at(&dns, &inetnum, "p.", "r.", 5);
    let files = zone_files_at(&dns, &inetnum, "p.", "r.", 5);
    assert_eq!(report.files.len(), files.len());
    for (a, b) in report.files.iter().zip(files.iter()) {
        assert_eq!((&a.origin, &a.content), (&b.origin, &b.content));
    }
    assert_eq!(
        report.warnings,
        vec![
            "No domain in record \"dns/c\"",
            "Failed to add glue record to zone dn42: Record name 'ns.other.neo' is not within the zone origin 'dn42'",
            "Invalid IPv4 registry-sync domain labels: 7.ipv4.registry-sync.dn42, should have exactly 7 labels: A.B.C.D.ipv4.registry-sync.dn42",
            "Invalid cidr in record \"inetnum/d\": Invalid prefix format: nothing",
            "IPv6 CIDR not aligned with nibble boundaries is not supported: fd42::/17",
        ]
    );
    assert_eq!(
        report.counter,
        ReverseRecordCounter { ipv4_align: 1, ipv4_non_align: 1, ipv6_align: 0, ipv6_non_align: 1 }
    );
    let now = generate_zone_report(&dns, &inetnum, "p.", "r.");
    assert_eq!(now.warnings, report.warnings);
    assert_eq!(now.counter, report.counter);
    assert_eq!(now.files.len(), 3);
}
