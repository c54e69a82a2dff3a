use formwork::compile::{seccomp_plan, InetSeccompDeny};
use formwork::confine::ConfineError;
use formwork::names::NameMap;
use formwork::policy::SocketFamily;
use formwork::seccomp::{build, filter_table, ArchNumbers, ArgCheck, ArgTest, SOCK_TYPE_MASK};

/// The x86_64 numbers, written out so the test does not depend on the machine it runs on.
fn x86_64_numbers() -> ArchNumbers {
    let table: &[(&str, i64)] = &[
        ("add_key", 248),
        ("bpf", 321),
        ("finit_module", 313),
        ("init_module", 175),
        ("io_uring_enter", 426),
        ("io_uring_register", 427),
        ("io_uring_setup", 425),
        ("kexec_file_load", 320),
        ("kexec_load", 246),
        ("keyctl", 250),
        ("mount", 165),
        ("mount_setattr", 442),
        ("move_mount", 429),
        ("open_by_handle_at", 304),
        ("perf_event_open", 298),
        ("pidfd_getfd", 438),
        ("pivot_root", 155),
        ("process_vm_readv", 310),
        ("process_vm_writev", 311),
        ("ptrace", 101),
        ("request_key", 249),
        ("setns", 308),
    ];
    let mut syscalls = NameMap::new();
    for (name, nr) in table {
        syscalls.insert(name.to_string(), *nr);
    }
    ArchNumbers {
        syscalls,
        sys_socket: 41,
        sys_unshare: 272,
        sys_clone: 56,
        af_inet: 2,
        af_inet6: 10,
        af_packet: 17,
        af_netlink: 16,
        netlink_route: 0,
        sock_dgram: 2,
        sock_raw: 3,
        clone_newuser: 0x1000_0000,
        eperm: 1,
    }
}

fn eq(arg: u8, value: u64) -> ArgCheck {
    ArgCheck { arg, test: ArgTest::Eq, value }
}

#[test]
fn full_deny_table_blocks_families_and_user_namespaces() {
    let n = x86_64_numbers();
    let t = filter_table(&seccomp_plan(InetSeccompDeny::FullInet), &n).unwrap();
    // Every baseline syscall is denied outright.
    let ptrace = t.iter().find(|e| e.nr == 101).unwrap();
    assert!(ptrace.rules.is_empty());
    assert_eq!(t.iter().filter(|e| e.rules.is_empty()).count(), 22);
    let socket = t.iter().find(|e| e.nr == 41).unwrap();
    assert_eq!(
        socket.rules,
        vec![
            vec![eq(0, 2)],
            vec![eq(0, 10)],
            vec![eq(0, 17)],
            vec![eq(0, 16), ArgCheck { arg: 2, test: ArgTest::Ne, value: 0 }],
        ]
    );
    let userns = vec![vec![ArgCheck { arg: 0, test: ArgTest::Masked(0x1000_0000), value: 0x1000_0000 }]];
    assert_eq!(t.iter().find(|e| e.nr == 272).unwrap().rules, userns);
    assert_eq!(t.iter().find(|e| e.nr == 56).unwrap().rules, userns);
    // AF_UNIX (1) matches no socket rule.
    assert!(socket.rules.iter().all(|r| r.iter().any(|c| c.arg == 0 && c.test == ArgTest::Eq && c.value != 1)));
}

#[test]
fn port_tier_table_denies_only_datagram_and_raw_inet() {
    let n = x86_64_numbers();
    let plan = seccomp_plan(InetSeccompDeny::DgramRawOnly);
    assert!(!plan.deny_socket_families.contains(&SocketFamily::Inet));
    let t = filter_table(&plan, &n).unwrap();
    let socket = t.iter().find(|e| e.nr == 41).unwrap();
    let masked = |v: u64| ArgCheck { arg: 1, test: ArgTest::Masked(SOCK_TYPE_MASK), value: v };
    assert_eq!(
        socket.rules,
        vec![
            vec![eq(0, 17)],
            vec![eq(0, 16), ArgCheck { arg: 2, test: ArgTest::Ne, value: 0 }],
            vec![eq(0, 2), masked(2)],
            vec![eq(0, 2), masked(3)],
            vec![eq(0, 10), masked(2)],
            vec![eq(0, 10), masked(3)],
        ]
    );
}

#[test]
fn a_syscall_without_a_number_refuses_the_filter() {
    let mut n = x86_64_numbers();
    let mut partial = NameMap::new();
    partial.insert("add_key".to_string(), 248i64);
    n.syscalls = partial;
    let plan = seccomp_plan(InetSeccompDeny::FullInet);
    assert_eq!(filter_table(&plan, &n).unwrap_err(), "bpf");
    match build(&plan, &n, "x86_64") {
        Err(ConfineError::MechanismFailed(m)) => assert_eq!(
            m,
            "seccomp baseline syscall \"bpf\" has no number on this arch; refusing a silently-weakened filter"
        ),
        other => panic!("unexpected {other:?}"),
    }
}

#[test]
fn the_baseline_compiles_to_a_bpf_program() {
    let n = x86_64_numbers();
    let prog = build(&seccomp_plan(InetSeccompDeny::FullInet), &n, "x86_64").unwrap();
    assert!(!prog.is_empty());
    assert!(matches!(build(&seccomp_plan(InetSeccompDeny::FullInet), &n, "sparc"), Err(ConfineError::MechanismFailed(m)) if m == "seccomp: unsupported arch sparc"));
}

#[test]
fn the_program_is_a_function_of_the_plan() {
    let n = x86_64_numbers();
    let a = build(&seccomp_plan(InetSeccompDeny::FullInet), &n, "x86_64").unwrap();
    let b = build(&seccomp_plan(InetSeccompDeny::FullInet), &n, "x86_64").unwrap();
    assert_eq!(a, b);
    let c = build(&seccomp_plan(InetSeccompDeny::DgramRawOnly), &n, "x86_64").unwrap();
    assert_ne!(a, c);
    // Every instruction is a return, a load, a jump or an ALU step: a real BPF program.
    assert!(a.iter().all(|(code, _, _, _)| matches!(code & 0x07, 0x00 | 0x04 | 0x05 | 0x06)));
    // The last instruction returns the default action, ALLOW.
    assert_eq!(a.last().map(|i| (i.0, i.3)), Some((0x06, 0x7fff_0000)));
}
