use formwork::blueprint::{Blueprint, EnvPosture, EnvScrub, ExecPosture, FsBlueprint, McpPolicy, NetPosture, ReadMode, Visibility};
use formwork::catalog::ResolvedCatalog;
use formwork::compile::{net_plan, seccomp_plan, CompileInput, InetSeccompDeny, PortTier};
use formwork::detect::{HostProfile, Os};
use formwork::names::NameMap;
use formwork::path::PathPattern;
use formwork::policy::{Backend, Capability, CompiledPolicy, ConfinerPolicy, Fidelity, LinuxNetPlan, SocketFamily};

fn pp(s: &str) -> PathPattern {
    PathPattern::parse(s).unwrap()
}

const ALL_CAPABILITIES: [Capability; 9] = [
    Capability::FsRead,
    Capability::FsWrite,
    Capability::NetDefaultDeny,
    Capability::NetPortTier,
    Capability::Exec,
    Capability::McpShading,
    Capability::CrossDomainSocket,
    Capability::FsInvisibility,
    Capability::EnvScrub,
];

fn sample_blueprint() -> Blueprint {
    let mut mcp = NameMap::new();
    mcp.insert("files".to_string(), McpPolicy { tools: Visibility::Allow(vec!["read_file".into()]), ..Default::default() });
    Blueprint {
        fs: FsBlueprint {
            read_mode: ReadMode::Closed,
            reads: vec![pp("/work/**")],
            writes: vec![pp("/work/project/**")],
            subtract: vec![pp("/work/.ssh/**")],
            write_subtract: vec![pp("**/.git/hooks/**")],
            ..Default::default()
        },
        net: NetPosture::Deny,
        exec_posture: ExecPosture::Unrestricted,
        mcp,
        ..Blueprint::empty()
    }
}

/// These compile with no credential floor; catalog behavior has its own tests.
fn compile(blueprint: &Blueprint, host: &HostProfile) -> CompiledPolicy {
    formwork::compile::compile(blueprint, host, &ResolvedCatalog::empty_no_floor())
}

fn cap(policy: &CompiledPolicy, c: Capability) -> &Fidelity {
    policy.report.per_capability.get(c).unwrap()
}

#[test]
fn writes_fold_into_effective_reads() {
    let input = CompileInput::from_blueprint(&sample_blueprint().canonicalize(), &ResolvedCatalog::empty_no_floor());
    assert_eq!(input.effective_reads, vec![pp("/work/**")]);
}

#[test]
fn macos_compile_is_seatbelt_enforced() {
    let policy = compile(&sample_blueprint(), &HostProfile::synthetic_macos());
    assert!(matches!(policy.confiner, ConfinerPolicy::Macos(_)));
    assert!(cap(&policy, Capability::FsRead).is_enforced());
    assert!(cap(&policy, Capability::NetDefaultDeny).is_enforced());
    assert!(cap(&policy, Capability::McpShading).is_enforced());
}

#[test]
fn linux_modern_uses_landlock_fs_and_seccomp_netdeny() {
    let policy = compile(&sample_blueprint(), &HostProfile::synthetic_linux(Some(6)));
    assert!(cap(&policy, Capability::FsRead).is_enforced());
    match &policy.confiner {
        ConfinerPolicy::Linux(l) => {
            assert!(matches!(l.net, LinuxNetPlan::SeccompDenyInet));
            assert!(l.no_new_privs);
        },
        other => panic!("expected Linux confiner, got {other:?}"),
    }
    assert!(matches!(cap(&policy, Capability::CrossDomainSocket), Fidelity::Partial { .. }));
}

#[test]
fn linux_port_tier_uses_landlock_tcp() {
    let blueprint = Blueprint { net: NetPosture::Ports(vec![443]), ..Blueprint::empty() };
    let policy = compile(&blueprint, &HostProfile::synthetic_linux(Some(6)));
    match &policy.confiner {
        ConfinerPolicy::Linux(l) => assert!(
            matches!(&l.net, LinuxNetPlan::LandlockTcpSeccompDgramRawDeny { ports } if ports == &vec![443]),
            "the TCP port tier is carried by Landlock net"
        ),
        other => panic!("expected Linux confiner, got {other:?}"),
    }
}

#[test]
fn linux_old_kernel_denies_net_via_seccomp() {
    let policy = compile(&sample_blueprint(), &HostProfile::synthetic_linux(Some(1)));
    match &policy.confiner {
        ConfinerPolicy::Linux(l) => assert!(matches!(l.net, LinuxNetPlan::SeccompDenyInet)),
        other => panic!("expected Linux confiner, got {other:?}"),
    }
    assert!(cap(&policy, Capability::NetDefaultDeny).is_enforced());
}

#[test]
fn linux_without_landlock_reports_fs_unenforceable() {
    let mut host = HostProfile::synthetic_linux(None);
    host.seccomp = true;
    let policy = compile(&sample_blueprint(), &host);
    assert!(matches!(cap(&policy, Capability::FsRead), Fidelity::Unenforceable { .. }));
    assert!(policy.report.net_is_fail_closed());
}

#[test]
fn no_confiner_at_all_is_unavailable_but_reported() {
    let host = HostProfile { os: Os::Linux, landlock_abi: None, seccomp: false, seatbelt: false, os_version: "ancient".to_string() };
    let policy = compile(&sample_blueprint(), &host);
    assert!(matches!(policy.confiner, ConfinerPolicy::Unavailable { .. }));
    assert!(!policy.report.net_is_fail_closed(), "net is genuinely unenforceable here and says so");
}

#[test]
fn env_posture_reported_honestly() {
    let pass = compile(&Blueprint::empty(), &HostProfile::synthetic_macos());
    assert!(!pass.report.per_capability.contains_key(Capability::EnvScrub));
    let allow = compile(&Blueprint { env: EnvPosture::Allowlist(vec!["PATH".into()]), ..Blueprint::empty() }, &HostProfile::synthetic_macos());
    assert!(cap(&allow, Capability::EnvScrub).is_enforced());
    let scrub = compile(&Blueprint { env: EnvPosture::Scrub(EnvScrub::default()), ..Blueprint::empty() }, &HostProfile::synthetic_macos());
    assert!(matches!(cap(&scrub, Capability::EnvScrub), Fidelity::Partial { backend: Backend::Launcher, .. }));
}

#[test]
fn catalog_floor_rides_linux_subtract_absolute_rows_only() {
    let catalog = ResolvedCatalog::builtin_for_home("/home/x").unwrap();
    let policy = formwork::compile::compile(&Blueprint::empty(), &HostProfile::synthetic_linux(Some(6)), &catalog);
    let linux = match &policy.confiner {
        ConfinerPolicy::Linux(p) => p,
        other => panic!("expected linux policy, got {other:?}"),
    };
    assert!(linux.subtract.contains(&pp("/home/x/.ssh/**")));
    assert!(!linux.subtract.iter().any(|p| p.is_any_depth()));
    let creds = &policy.report.credentials;
    assert!(matches!(creds.backstop, Some(Fidelity::Partial { .. })));
    assert!(matches!(creds.per_type.get("dotenv").unwrap().path, Some(Fidelity::Partial { .. })));
    assert!(matches!(creds.per_type.get("ssh").unwrap().path, Some(Fidelity::Enforced { backend: Backend::Landlock })));
}

#[test]
fn floor_survives_a_grant_of_the_whole_filesystem() {
    let catalog = ResolvedCatalog::builtin_for_home("/home/x").unwrap();
    let broad = Blueprint {
        fs: FsBlueprint { reads: vec![pp("/**")], writes: vec![pp("/home/x/**")], ..Default::default() },
        ..Blueprint::empty()
    };
    let policy = formwork::compile::compile(&broad, &HostProfile::synthetic_linux(Some(6)), &catalog);
    let linux = match &policy.confiner {
        ConfinerPolicy::Linux(p) => p,
        other => panic!("expected linux policy, got {other:?}"),
    };
    for hole in ["/home/x/.ssh/**", "/home/x/.aws/**", "/etc/shadow"] {
        assert!(linux.subtract.iter().any(|h| h.covers(&pp(hole))), "{hole} fell out under a broad grant");
    }
    let mac = formwork::compile::compile(&broad, &HostProfile::synthetic_macos(), &catalog);
    match &mac.confiner {
        ConfinerPolicy::Macos(m) => assert!(m.sbpl.contains("/home/x/.ssh"), "{}", m.sbpl),
        other => panic!("expected macos policy, got {other:?}"),
    }
}

#[test]
fn excluded_type_leaves_report_per_type_and_lists_allowed() {
    let catalog = ResolvedCatalog::builtin_for_home("/home/x").unwrap();
    let bp = Blueprint { allow_credentials: vec!["aws".to_string()], ..Blueprint::empty() };
    let policy = formwork::compile::compile(&bp, &HostProfile::synthetic_macos(), &catalog);
    let creds = &policy.report.credentials;
    assert!(!creds.per_type.contains_key("aws"), "excluded type must not be claimed");
    assert_eq!(creds.allowed, vec!["aws"]);
    assert!(creds.per_type.contains_key("ssh"), "adjacent types stay enforced");
    assert!(creds.launcher_contingency.contains("launching process"));
}

#[test]
fn port_tier_unenforceable_on_old_linux_but_fail_closed() {
    let blueprint = Blueprint { net: NetPosture::Ports(vec![8080]), ..Blueprint::empty() };
    let policy = compile(&blueprint, &HostProfile::synthetic_linux(Some(1)));
    assert!(matches!(cap(&policy, Capability::NetPortTier), Fidelity::Unenforceable { .. }));
    assert!(policy.report.net_is_fail_closed());
    assert!(policy.gateway.direct_tcp_ports.is_empty());
}

#[test]
fn compile_is_insensitive_to_equivalent_reorderings() {
    let host = HostProfile::synthetic_linux(Some(4));
    let a = compile(&sample_blueprint(), &host);
    let mut dup = sample_blueprint();
    dup.fs.reads.insert(0, pp("/work/**"));
    assert_eq!(compile(&dup, &host), a);
    assert_eq!(compile(&sample_blueprint(), &host), a);
}

// ---------------------------------------------------------------------------------------------
// The Linux seccomp and net plans

#[test]
fn baseline_is_sorted_and_denies_escalation_surfaces() {
    let plan = seccomp_plan(InetSeccompDeny::FullInet);
    assert!(plan.deny_syscalls.windows(2).all(|w| w[0] < w[1]));
    assert!(plan.deny_syscalls.iter().any(|s| s == "bpf"));
    assert!(plan.deny_syscalls.iter().any(|s| s == "setns"));
    for s in ["io_uring_setup", "pidfd_getfd", "process_vm_readv", "process_vm_writev"] {
        assert!(plan.deny_syscalls.iter().any(|d| d == s), "missing {s}");
    }
    assert!(plan.restrict_userns);
    assert!(plan.set_no_new_privs);
}

#[test]
fn full_inet_deny_blocks_whole_families() {
    let plan = seccomp_plan(InetSeccompDeny::FullInet);
    assert!(plan.deny_socket_families.contains(&SocketFamily::Inet));
    assert!(plan.deny_socket_families.contains(&SocketFamily::Inet6));
    assert!(plan.deny_socket_families.contains(&SocketFamily::Packet));
    assert!(plan.deny_socket_families.contains(&SocketFamily::NetlinkNonRoute));
    assert!(!plan.deny_inet_dgram_raw);
}

#[test]
fn port_tier_seccomp_denies_dgram_raw_but_not_stream() {
    let plan = seccomp_plan(InetSeccompDeny::DgramRawOnly);
    assert!(plan.deny_inet_dgram_raw, "UDP/raw must be denied");
    assert!(!plan.deny_socket_families.contains(&SocketFamily::Inet) && !plan.deny_socket_families.contains(&SocketFamily::Inet6));
    assert!(plan.deny_socket_families.contains(&SocketFamily::Packet));
    assert!(plan.deny_socket_families.contains(&SocketFamily::NetlinkNonRoute));
}

#[test]
fn net_deny_always_uses_seccomp_inet_deny() {
    for abi in [1, 4, 6] {
        let host = HostProfile::synthetic_linux(Some(abi));
        let (plan, inet_deny, tier) = net_plan(&host, &NetPosture::Deny);
        assert!(matches!(plan, LinuxNetPlan::SeccompDenyInet), "abi {abi}: net-deny must be the complete seccomp inet deny");
        assert_eq!(inet_deny, InetSeccompDeny::FullInet);
        assert_eq!(tier, PortTier::NotRequested);
    }
}

#[test]
fn port_tier_pairs_landlock_tcp_with_seccomp_dgram_raw_deny() {
    let old = HostProfile::synthetic_linux(Some(1));
    let (plan, inet_deny, tier) = net_plan(&old, &NetPosture::Ports(vec![8080]));
    assert!(matches!(plan, LinuxNetPlan::SeccompDenyInet));
    assert_eq!(inet_deny, InetSeccompDeny::FullInet);
    assert_eq!(tier, PortTier::UnenforceableBelowAbi4);
    let new = HostProfile::synthetic_linux(Some(4));
    let (plan, inet_deny, tier) = net_plan(&new, &NetPosture::Ports(vec![8080]));
    assert!(matches!(&plan, LinuxNetPlan::LandlockTcpSeccompDgramRawDeny { ports } if ports == &vec![8080]));
    assert_eq!(plan.landlock_tcp_ports(), Some(&[8080][..]));
    assert_eq!(inet_deny, InetSeccompDeny::DgramRawOnly);
    assert_eq!(tier, PortTier::Enforced);
}

// ---------------------------------------------------------------------------------------------
// Black-box compile checks

fn compile_with_floor(blueprint: &Blueprint, host: &HostProfile) -> CompiledPolicy {
    formwork::compile::compile(blueprint, host, &ResolvedCatalog::builtin_for_home("/home/x").unwrap())
}

fn rich_blueprint() -> Blueprint {
    Blueprint {
        fs: FsBlueprint {
            read_mode: ReadMode::Closed,
            reads: vec![pp("/work/**")],
            writes: vec![pp("/work/project/**")],
            subtract: vec![pp("/work/project/.git/**"), pp("/work/.ssh/**")],
            write_subtract: vec![pp("**/.mcp.json")],
            ..Default::default()
        },
        net: NetPosture::Ports(vec![8080]),
        exec_posture: ExecPosture::Unrestricted,
        mcp: NameMap::new(),
        ..Blueprint::empty()
    }
}

#[test]
fn fw_e2e_026_dry_run_cross_platform_compile() {
    let linux = compile_with_floor(&rich_blueprint(), &HostProfile::synthetic_linux(Some(6)));
    assert!(matches!(linux.confiner, ConfinerPolicy::Linux(_)));
    assert!(linux.report.per_capability.contains_key(Capability::FsRead));
    let mac = compile_with_floor(&rich_blueprint(), &HostProfile::synthetic_macos());
    assert!(matches!(mac.confiner, ConfinerPolicy::Macos(_)));
    let bare = HostProfile { os: Os::Linux, landlock_abi: None, seccomp: false, seatbelt: false, os_version: "bare".into() };
    let bare_policy = compile_with_floor(&rich_blueprint(), &bare);
    assert!(matches!(bare_policy.confiner, ConfinerPolicy::Unavailable { .. }));
}

#[test]
fn fw_inv5_every_enforced_capability_names_a_backend() {
    for host in [HostProfile::synthetic_macos(), HostProfile::synthetic_linux(Some(6))] {
        let policy = compile_with_floor(&rich_blueprint(), &host);
        for c in ALL_CAPABILITIES {
            if let Some(Fidelity::Enforced { backend }) = policy.report.per_capability.get(c) {
                assert!(!matches!(backend, Backend::Unbacked), "{c:?} claims Enforced but names no backend on {:?}", host.os);
            }
        }
        for (c, backend) in policy.report.enforced_capabilities() {
            assert!(!matches!(backend, Backend::Unbacked), "{c:?}");
        }
    }
}

#[test]
fn fw_inv6_net_never_silently_open() {
    let hosts = [
        HostProfile::synthetic_macos(),
        HostProfile::synthetic_linux(Some(6)),
        HostProfile::synthetic_linux(Some(1)),
        HostProfile { os: Os::Linux, landlock_abi: None, seccomp: true, seatbelt: false, os_version: "seccomp-only".into() },
        HostProfile { os: Os::Linux, landlock_abi: None, seccomp: false, seatbelt: false, os_version: "bare".into() },
    ];
    for host in hosts {
        let policy = compile_with_floor(&Blueprint::empty(), &host);
        let net = policy.report.per_capability.get(Capability::NetDefaultDeny).expect("net posture must always be reported");
        match net {
            Fidelity::Enforced { .. } | Fidelity::Partial { .. } => {},
            Fidelity::Unenforceable { reason } => {
                assert!(!reason.is_empty(), "an unenforceable net must carry a surfaced reason");
            },
        }
    }
}

#[test]
fn capability_keys_are_kebab_case() {
    assert_eq!(Capability::NetDefaultDeny.as_key(), "net-default-deny");
    assert_eq!(Capability::FsRead.as_key(), "fs-read");
}

#[test]
fn detect_host_profiles_are_built_from_probes() {
    let linux = formwork::detect::linux_host_from_probes(6, 0, Some("6.8.0".to_string()));
    assert_eq!(linux.os, Os::Linux);
    assert_eq!(linux.landlock_abi, Some(6));
    let old = formwork::detect::linux_host_from_probes(-1, -1, None);
    assert_eq!(old.landlock_abi, None);
    assert!(!old.seccomp);
    let mac = formwork::detect::macos_host_from_release(Some("15.1".to_string()));
    assert_eq!(mac.os, Os::MacOs);
    assert!(mac.seatbelt);
}

#[test]
fn deterministic_compile_is_byte_identical() {
    let blueprint = sample_blueprint();
    let host = HostProfile::synthetic_linux(Some(4));
    let a = compile(&blueprint, &host);
    let b = compile(&blueprint, &host);
    assert_eq!(a, b);
    let mut blueprint2 = blueprint.clone();
    blueprint2.fs.reads.insert(0, pp("/work/**"));
    let c = compile(&blueprint2, &host);
    assert_eq!(a, c);
}

#[test]
fn fw_e2e_027_deterministic_compile() {
    let host = HostProfile::synthetic_linux(Some(4));
    let a = compile_with_floor(&rich_blueprint(), &host);
    let b = compile_with_floor(&rich_blueprint(), &host);
    assert_eq!(a, b, "identical inputs must produce identical output");
    let mut shuffled = rich_blueprint();
    shuffled.fs.reads = vec![pp("/work/**"), pp("/work/**")];
    shuffled.fs.subtract = vec![pp("/work/.ssh/**"), pp("/work/project/.git/**")];
    let c = compile_with_floor(&shuffled, &host);
    assert_eq!(a, c, "reordered/duplicated but equivalent blueprint must compile identically");
}
