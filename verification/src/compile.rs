//! The capability compiler: the single authority mapping a blueprint to concrete mechanisms. Pure
//! -- it never touches the kernel -- so it runs anywhere, is inspectable without enforcing, and is
//! deterministic in `(blueprint, host, catalog)`. Impurity is confined to the host profile the
//! caller passes in; a synthetic profile compiles a policy for a platform one is not on.

use vstd::prelude::*;
use crate::blueprint::{blueprint_canonical_of, Blueprint, BlueprintModel, EnvModel, EnvPosture, ExecModel, ExecPosture, NetModel, NetPosture, ReadMode};
use crate::catalog::{denied_of, enforced_of, ResolvedCatalog, ResolvedCatalogModel, ResolvedEntryModel};
use crate::detect::{HostModel, HostProfile, Os};
use crate::names::{copy_string, copy_strings, names_contain, strs_view, NameMap};
use crate::path::{covers_model, PathPattern, PatternModel};
use crate::path_set::{canonical_set_of, canonicalize_set, copy_patterns, lemma_canonical_covers, pats_view, pattern_wf};
use crate::policy::{cap_index, Backend, Capability, CapabilityMap, CompiledPolicy, ConfinerPolicy, CredentialFidelity, CredentialReport, DenialSemantics, ExecPlan, Fidelity, FidelityModel, FidelityReport, GatewayPolicy, LinuxNetPlan, LinuxPolicy, MacosPolicy, SeccompPlan, SocketFamily};
use crate::text::{decimal, push_decimal, push_str};

verus! {

/// The Landlock ABI at which TCP network rules become available.
pub const LANDLOCK_NET_ABI: u32 = 4;

pub const FS_UNAVAILABLE: &'static str = "Landlock unavailable on this host; filesystem scope cannot be enforced";

pub const NET_UNENFORCEABLE: &'static str = "neither Landlock net rules nor seccomp available; direct egress cannot be denied";

pub const NET_TCP_ONLY: &'static str = "Landlock governs TCP only and seccomp is unavailable; direct UDP and raw egress are not denied";

pub const PORT_TIER_NEEDS: &'static str = "direct TCP port tier needs Landlock ABI v4 (host has v";

pub const PORT_TIER_FALLBACK: &'static str = "); egress fails closed instead";

pub const EXEC_UNAVAILABLE: &'static str = "exec allow-list needs Landlock FS_EXECUTE; unavailable here";

pub const XDOMAIN_COARSE: &'static str = "Landlock UNIX-socket scope is coarse: it blocks sockets created outside the domain, not per-path";

pub const XDOMAIN_NEEDS: &'static str = "UNIX-socket scoping needs Landlock ABI v6; remote egress still denied by net posture";

pub const NO_INVISIBILITY: &'static str = "Formwork denies with EACCES/EPERM; it does not emulate ENOENT";

pub const SCRUB_HEURISTIC: &'static str = "heuristic: drops secret-shaped names and values; a secret with neither a known marker name nor a recognized value shape (e.g. an inline credential in DATABASE_URL) is not caught -- pin it with an explicit deny or use an allowlist";

pub const NO_CONFINER: &'static str = "no Landlock and no seccomp on this host; OS-level confinement unavailable";

pub const NO_FS_CONFINEMENT: &'static str = "no filesystem confinement on this host";

pub const ANY_DEPTH_WITHHELD: &'static str = "any-depth (`**/`) rows cannot be rooted Landlock rules and are withheld on Linux; absolute rows are enforced";

pub const LAUNCHER_CONTINGENCY: &'static str = "env-var shading is applied by the launcher at spawn; it holds only while Formwork is the launching process and is not a kernel guarantee";

/// Escalation and confinement-shedding syscalls denied outright, in sorted order; none is touched
/// by an ordinary build, test or version-control toolchain.
pub open spec fn baseline_deny() -> Seq<Seq<char>> {
    seq![
        "add_key"@, "bpf"@, "finit_module"@, "init_module"@, "io_uring_enter"@,
        "io_uring_register"@, "io_uring_setup"@, "kexec_file_load"@, "kexec_load"@, "keyctl"@,
        "mount"@, "mount_setattr"@, "move_mount"@, "open_by_handle_at"@, "perf_event_open"@,
        "pidfd_getfd"@, "pivot_root"@, "process_vm_readv"@, "process_vm_writev"@, "ptrace"@,
        "request_key"@, "setns"@,
    ]
}

/// How the seccomp filter carries the inet-egress deny. Landlock net governs only TCP, so seccomp
/// always carries at least the datagram and raw half of net default-deny.
#[derive(Clone, Copy, Debug, PartialEq, Eq, Structural)]
pub enum InetSeccompDeny {
    /// Deny inet socket creation at the family level: TCP, UDP and raw. The outright net deny,
    /// and the port-tier fallback below ABI 4.
    FullInet,
    /// The port tier: deny inet datagram and raw sockets while allowing streams, so the Landlock
    /// per-port rules govern TCP and direct UDP or raw egress fails closed.
    DgramRawOnly,
}

#[derive(Clone, Copy, Debug, PartialEq, Eq, Structural)]
pub enum PortTier {
    NotRequested,
    Enforced,
    UnenforceableBelowAbi4,
}

pub struct SeccompModel {
    pub deny_syscalls: Seq<Seq<char>>,
    pub deny_socket_families: Seq<SocketFamily>,
    pub deny_inet_dgram_raw: bool,
    pub restrict_userns: bool,
    pub set_no_new_privs: bool,
}

pub open spec fn seccomp_view(p: SeccompPlan) -> SeccompModel {
    SeccompModel {
        deny_syscalls: strs_view(p.deny_syscalls@),
        deny_socket_families: p.deny_socket_families@,
        deny_inet_dgram_raw: p.deny_inet_dgram_raw,
        restrict_userns: p.restrict_userns,
        set_no_new_privs: p.set_no_new_privs,
    }
}

/// The seccomp baseline plus the inet deny `d` calls for. Unix sockets and socket pairs are never
/// listed, so the injected-descriptor seam stays untouched.
pub open spec fn seccomp_model(d: InetSeccompDeny) -> SeccompModel {
    SeccompModel {
        deny_syscalls: baseline_deny(),
        deny_socket_families: match d {
            InetSeccompDeny::FullInet => seq![SocketFamily::Inet, SocketFamily::Inet6, SocketFamily::Packet, SocketFamily::NetlinkNonRoute],
            InetSeccompDeny::DgramRawOnly => seq![SocketFamily::Packet, SocketFamily::NetlinkNonRoute],
        },
        deny_inet_dgram_raw: d == InetSeccompDeny::DgramRawOnly,
        restrict_userns: true,
        set_no_new_privs: true,
    }
}

fn syscall_names(items: &[&str]) -> (r: Vec<String>)
    ensures
        strs_view(r@) == items@.map_values(|s: &str| s@),
{
    let mut out: Vec<String> = Vec::new();
    let mut i: usize = 0;
    while i < items.len()
        invariant
            i <= items.len(),
            strs_view(out@) == items@.take(i as int).map_values(|s: &str| s@),
        decreases items.len() - i,
    {
        let ghost before = strs_view(out@);
        let s = String::from_str(items[i]);
        out.push(s);
        assert(strs_view(out@) =~= before.push(s@));
        assert(items@.take(i + 1).map_values(|s: &str| s@) =~= items@.take(i as int).map_values(|s: &str| s@).push(items@[i as int]@));
        i = i + 1;
    }
    assert(items@.take(items.len() as int) =~= items@);
    out
}

/// Build the seccomp baseline plus whatever inet-egress deny `inet_deny` calls for.
pub fn seccomp_plan(inet_deny: InetSeccompDeny) -> (r: SeccompPlan)
    ensures
        seccomp_view(r) == seccomp_model(inet_deny),
{
    let names: [&str; 22] = [
        "add_key", "bpf", "finit_module", "init_module", "io_uring_enter", "io_uring_register",
        "io_uring_setup", "kexec_file_load", "kexec_load", "keyctl", "mount", "mount_setattr",
        "move_mount", "open_by_handle_at", "perf_event_open", "pidfd_getfd", "pivot_root",
        "process_vm_readv", "process_vm_writev", "ptrace", "request_key", "setns",
    ];
    let deny_syscalls = syscall_names(names.as_slice());
    assert(names@.map_values(|s: &str| s@) =~= baseline_deny());
    let (deny_socket_families, deny_inet_dgram_raw) = match inet_deny {
        InetSeccompDeny::FullInet => (
            vec![SocketFamily::Inet, SocketFamily::Inet6, SocketFamily::Packet, SocketFamily::NetlinkNonRoute],
            false,
        ),
        InetSeccompDeny::DgramRawOnly => (vec![SocketFamily::Packet, SocketFamily::NetlinkNonRoute], true),
    };
    let r = SeccompPlan {
        deny_syscalls,
        deny_socket_families,
        deny_inet_dgram_raw,
        restrict_userns: true,
        set_no_new_privs: true,
    };
    assert(seccomp_view(r).deny_socket_families =~= seccomp_model(inet_deny).deny_socket_families);
    r
}

pub enum NetPlanModel {
    SeccompDenyInet,
    LandlockTcpSeccompDgramRawDeny { ports: Seq<u16> },
}

pub open spec fn net_plan_view(p: LinuxNetPlan) -> NetPlanModel {
    match p {
        LinuxNetPlan::SeccompDenyInet => NetPlanModel::SeccompDenyInet,
        LinuxNetPlan::LandlockTcpSeccompDgramRawDeny { ports } => NetPlanModel::LandlockTcpSeccompDgramRawDeny { ports: ports@ },
    }
}

pub open spec fn abi_of(h: HostModel) -> u32 {
    match h.landlock_abi {
        Some(a) => a,
        None => 0,
    }
}

/// Deny is carried by a full seccomp inet deny at every ABI (Landlock net covers only TCP, so a
/// Landlock deny would leave UDP and raw open); a port set is carried by Landlock TCP rules plus
/// a seccomp datagram/raw deny from ABI 4, and below ABI 4 falls back to the full deny with the tier
/// reported unenforceable.
pub open spec fn net_plan_model(h: HostModel, net: NetModel) -> (NetPlanModel, InetSeccompDeny, PortTier) {
    match net {
        NetModel::Deny => (NetPlanModel::SeccompDenyInet, InetSeccompDeny::FullInet, PortTier::NotRequested),
        NetModel::Ports(ports) => if abi_of(h) >= LANDLOCK_NET_ABI {
            (NetPlanModel::LandlockTcpSeccompDgramRawDeny { ports }, InetSeccompDeny::DgramRawOnly, PortTier::Enforced)
        } else {
            (NetPlanModel::SeccompDenyInet, InetSeccompDeny::FullInet, PortTier::UnenforceableBelowAbi4)
        },
    }
}

/// The Linux net plan: which plan, which seccomp inet deny, and whether the port tier holds.
pub fn net_plan(host: &HostProfile, net: &NetPosture) -> (r: (LinuxNetPlan, InetSeccompDeny, PortTier))
    ensures
        (net_plan_view(r.0), r.1, r.2) == net_plan_model(host@, net@),
{
    let abi: u32 = match host.landlock_abi {
        Some(a) => a,
        None => 0,
    };
    match net {
        NetPosture::Deny => (LinuxNetPlan::SeccompDenyInet, InetSeccompDeny::FullInet, PortTier::NotRequested),
        NetPosture::Ports(ports) => {
            if abi >= LANDLOCK_NET_ABI {
                let p = ports.clone();
                assert(p@ =~= ports@);
                (LinuxNetPlan::LandlockTcpSeccompDgramRawDeny { ports: p }, InetSeccompDeny::DgramRawOnly, PortTier::Enforced)
            } else {
                (LinuxNetPlan::SeccompDenyInet, InetSeccompDeny::FullInet, PortTier::UnenforceableBelowAbi4)
            }
        },
    }
}


// ---------------------------------------------------------------------------------------------
// The normalized input

/// The normalized intermediate both backends consume: canonical, with write grants folded into
/// the read surface (writes imply reads). Operator denies (`subtract`) and the credential floor
/// (`floor`) stay separate: the floor's typed exemption may lift a floor hole, but an operator
/// deny is never lifted by anything.
pub struct CompileInput {
    pub read_mode: ReadMode,
    pub effective_reads: Vec<PathPattern>,
    pub writes: Vec<PathPattern>,
    pub writes_no_create: Vec<PathPattern>,
    pub subtract: Vec<PathPattern>,
    pub write_subtract: Vec<PathPattern>,
    /// Every non-excluded catalog type's paths plus the backstop: read and write denied.
    pub floor: Vec<PathPattern>,
    /// Excluded types' scopes, where a floor deny crossing into a type's own directory is lifted.
    pub floor_exempt: Vec<PathPattern>,
    pub net: NetPosture,
    pub exec_posture: ExecPosture,
}

pub struct InputModel {
    pub read_mode: ReadMode,
    pub effective_reads: Seq<PatternModel>,
    pub writes: Seq<PatternModel>,
    pub writes_no_create: Seq<PatternModel>,
    pub subtract: Seq<PatternModel>,
    pub write_subtract: Seq<PatternModel>,
    pub floor: Seq<PatternModel>,
    pub floor_exempt: Seq<PatternModel>,
    pub net: NetModel,
    pub exec_posture: ExecModel,
}

impl View for CompileInput {
    type V = InputModel;

    open spec fn view(&self) -> InputModel {
        InputModel {
            read_mode: self.read_mode,
            effective_reads: pats_view(self.effective_reads@),
            writes: pats_view(self.writes@),
            writes_no_create: pats_view(self.writes_no_create@),
            subtract: pats_view(self.subtract@),
            write_subtract: pats_view(self.write_subtract@),
            floor: pats_view(self.floor@),
            floor_exempt: pats_view(self.floor_exempt@),
            net: self.net@,
            exec_posture: self.exec_posture@,
        }
    }
}

/// Every path of the given types, type by type.
pub open spec fn paths_of(types: Seq<(Seq<char>, ResolvedEntryModel)>) -> Seq<PatternModel>
    decreases types.len(),
{
    if types.len() == 0 {
        Seq::empty()
    } else {
        paths_of(types.drop_last()) + types.last().1.paths
    }
}

/// `i` is the compile input for blueprint `b` (in canonical form) and catalog `c`.
pub open spec fn input_of(i: InputModel, b: BlueprintModel, c: ResolvedCatalogModel) -> bool {
    &&& i.read_mode == b.fs.read_mode
    &&& canonical_set_of(i.effective_reads, b.fs.reads + b.fs.writes + b.fs.writes_no_create)
    &&& canonical_set_of(i.writes, b.fs.writes)
    &&& canonical_set_of(i.writes_no_create, b.fs.writes_no_create)
    &&& canonical_set_of(i.subtract, b.fs.subtract)
    &&& canonical_set_of(i.write_subtract, b.fs.write_subtract)
    &&& canonical_set_of(i.floor, denied_of(c, b.allow_credentials))
    &&& canonical_set_of(i.floor_exempt, paths_of(crate::launcher::allowed_of(c.types, b.allow_credentials)))
    &&& i.net == b.net
    &&& i.exec_posture == b.exec_posture
}

fn exempt_paths(c: &ResolvedCatalog, allow: &Vec<String>) -> (r: Vec<PathPattern>)
    ensures
        pats_view(r@) == paths_of(crate::launcher::allowed_of(c@.types, strs_view(allow@))),
{
    let n = c.types.len();
    let ghost tv = c@.types;
    let ghost av = strs_view(allow@);
    let mut out: Vec<PathPattern> = Vec::new();
    let mut i: usize = 0;
    assert(tv.take(0) =~= Seq::<(Seq<char>, ResolvedEntryModel)>::empty());
    assert(pats_view(out@) =~= Seq::<PatternModel>::empty());
    while i < n
        invariant
            n == tv.len(),
            tv == c@.types,
            av == strs_view(allow@),
            i <= n,
            pats_view(out@) == paths_of(crate::launcher::allowed_of(tv.take(i as int), av)),
        decreases n - i,
    {
        let ghost t = tv.take(i + 1);
        assert(t.drop_last() =~= tv.take(i as int));
        assert(t.last() == tv[i as int]);
        let ghost al = crate::launcher::allowed_of(tv.take(i as int), av);
        if names_contain(allow, c.types.key(i).as_str()) {
            let mut more = copy_patterns(&c.types.value(i).paths);
            let ghost a = pats_view(out@);
            let ghost b = pats_view(more@);
            out.append(&mut more);
            assert(pats_view(out@) =~= a + b);
            assert(al.push(tv[i as int]).drop_last() =~= al);
        }
        i = i + 1;
    }
    assert(tv.take(n as int) =~= tv);
    out
}

fn concat_patterns(a: &Vec<PathPattern>, b: &Vec<PathPattern>) -> (r: Vec<PathPattern>)
    ensures
        pats_view(r@) == pats_view(a@) + pats_view(b@),
{
    let mut out = copy_patterns(a);
    let mut more = copy_patterns(b);
    out.append(&mut more);
    assert(pats_view(out@) =~= pats_view(a@) + pats_view(b@));
    out
}

impl CompileInput {
    /// The normalized input for a (canonical) blueprint and a catalog.
    pub fn from_blueprint(blueprint: &Blueprint, catalog: &ResolvedCatalog) -> (r: CompileInput)
        ensures
            input_of(r@, blueprint@, catalog@),
    {
        let rw = concat_patterns(&blueprint.fs.reads, &blueprint.fs.writes);
        let rwm = concat_patterns(&rw, &blueprint.fs.writes_no_create);
        let floor = catalog.denied_paths(&blueprint.allow_credentials);
        let exempt = exempt_paths(catalog, &blueprint.allow_credentials);
        CompileInput {
            read_mode: blueprint.fs.read_mode,
            effective_reads: canonicalize_set(rwm.as_slice()),
            writes: canonicalize_set(blueprint.fs.writes.as_slice()),
            writes_no_create: canonicalize_set(blueprint.fs.writes_no_create.as_slice()),
            subtract: canonicalize_set(blueprint.fs.subtract.as_slice()),
            write_subtract: canonicalize_set(blueprint.fs.write_subtract.as_slice()),
            floor: canonicalize_set(floor.as_slice()),
            floor_exempt: canonicalize_set(exempt.as_slice()),
            net: blueprint.net.copy(),
            exec_posture: blueprint.exec_posture.copy(),
        }
    }
}

// ---------------------------------------------------------------------------------------------
// The report rows

pub open spec fn fs_row(h: HostModel) -> FidelityModel {
    match h.os {
        Os::MacOs => FidelityModel::Enforced { backend: Backend::Seatbelt },
        Os::Linux => if abi_of(h) >= 1 {
            FidelityModel::Enforced { backend: Backend::Landlock }
        } else {
            FidelityModel::Unenforceable { reason: FS_UNAVAILABLE@ }
        },
    }
}

pub open spec fn net_row(h: HostModel, net: NetModel) -> FidelityModel {
    match h.os {
        Os::MacOs => FidelityModel::Enforced { backend: Backend::Seatbelt },
        Os::Linux => match net_plan_model(h, net).1 {
            InetSeccompDeny::FullInet => if h.seccomp {
                FidelityModel::Enforced { backend: Backend::Seccomp }
            } else {
                FidelityModel::Unenforceable { reason: NET_UNENFORCEABLE@ }
            },
            InetSeccompDeny::DgramRawOnly => if h.seccomp {
                FidelityModel::Enforced { backend: Backend::Landlock }
            } else {
                FidelityModel::Partial { backend: Backend::Landlock, reason: NET_TCP_ONLY@ }
            },
        },
    }
}

pub open spec fn port_row(h: HostModel, net: NetModel) -> Option<FidelityModel> {
    match h.os {
        Os::MacOs => if net is Ports {
            Some(FidelityModel::Enforced { backend: Backend::Seatbelt })
        } else {
            None
        },
        Os::Linux => match net_plan_model(h, net).2 {
            PortTier::NotRequested => None,
            PortTier::Enforced => Some(FidelityModel::Enforced { backend: Backend::Landlock }),
            PortTier::UnenforceableBelowAbi4 => Some(
                FidelityModel::Unenforceable { reason: PORT_TIER_NEEDS@ + decimal(abi_of(h) as nat) + PORT_TIER_FALLBACK@ },
            ),
        },
    }
}

pub open spec fn exec_row(h: HostModel, e: ExecModel) -> Option<FidelityModel> {
    match e {
        ExecModel::Unrestricted => None,
        ExecModel::Allowlist(_) => match h.os {
            Os::MacOs => Some(FidelityModel::Enforced { backend: Backend::Seatbelt }),
            Os::Linux => if abi_of(h) >= 1 {
                Some(FidelityModel::Enforced { backend: Backend::Landlock })
            } else {
                Some(FidelityModel::Unenforceable { reason: EXEC_UNAVAILABLE@ })
            },
        },
    }
}

pub open spec fn xdomain_row(h: HostModel) -> FidelityModel {
    match h.os {
        Os::MacOs => FidelityModel::Enforced { backend: Backend::Seatbelt },
        Os::Linux => if abi_of(h) >= 6 {
            FidelityModel::Partial { backend: Backend::Landlock, reason: XDOMAIN_COARSE@ }
        } else {
            FidelityModel::Unenforceable { reason: XDOMAIN_NEEDS@ }
        },
    }
}

/// An allowlist is exact; a scrub is heuristic and says so; passthrough asks for nothing.
pub open spec fn env_row(e: EnvModel) -> Option<FidelityModel> {
    match e {
        EnvModel::Passthrough => None,
        EnvModel::Allowlist(_) => Some(FidelityModel::Enforced { backend: Backend::Launcher }),
        EnvModel::Scrub(_) => Some(FidelityModel::Partial { backend: Backend::Launcher, reason: SCRUB_HEURISTIC@ }),
    }
}

/// The report's capability rows, in report order.
pub open spec fn expected_rows(h: HostModel, b: BlueprintModel) -> Seq<Option<FidelityModel>> {
    seq![
        Some(fs_row(h)),
        Some(fs_row(h)),
        Some(net_row(h, b.net)),
        port_row(h, b.net),
        exec_row(h, b.exec_posture),
        if b.mcp.len() > 0 { Some(FidelityModel::Enforced { backend: Backend::Gateway }) } else { None },
        Some(xdomain_row(h)),
        Some(FidelityModel::Unenforceable { reason: NO_INVISIBILITY@ }),
        env_row(b.env),
    ]
}

/// How each reported denial manifests, in report order.
pub open spec fn expected_semantics(h: HostModel, b: BlueprintModel) -> Seq<Option<DenialSemantics>> {
    seq![
        Some(DenialSemantics::Deny),
        Some(DenialSemantics::Deny),
        Some(DenialSemantics::Deny),
        if port_row(h, b.net) is Some { Some(DenialSemantics::Deny) } else { None },
        if b.exec_posture is Allowlist { Some(DenialSemantics::Deny) } else { None },
        if b.mcp.len() > 0 { Some(DenialSemantics::Hide) } else { None },
        Some(DenialSemantics::Deny),
        Some(DenialSemantics::Deny),
        if b.env is Passthrough { None } else { Some(DenialSemantics::Hide) },
    ]
}


// ---------------------------------------------------------------------------------------------
// The credential section

/// The path arm rides whatever carries filesystem reads on this host, including its honest
/// degradation: on Linux a type with any-depth rows is partial, because those rows cannot be
/// rooted Landlock rules and are withheld from the policy.
pub open spec fn path_fidelity(h: HostModel, paths: Seq<PatternModel>) -> FidelityModel {
    if h.os == Os::Linux && fs_row(h) is Enforced && exists|j: int| 0 <= j < paths.len() && (#[trigger] paths[j]).any_depth {
        FidelityModel::Partial { backend: Backend::Landlock, reason: ANY_DEPTH_WITHHELD@ }
    } else {
        fs_row(h)
    }
}

pub open spec fn type_row(h: HostModel, e: ResolvedEntryModel) -> (Option<FidelityModel>, Option<FidelityModel>) {
    (
        if e.paths.len() > 0 { Some(path_fidelity(h, e.paths)) } else { None },
        if e.envs.len() > 0 { Some(FidelityModel::Enforced { backend: Backend::Launcher }) } else { None },
    )
}

/// One row per still-enforced type, in name order.
pub open spec fn type_rows(h: HostModel, enforced: Seq<(Seq<char>, ResolvedEntryModel)>) -> Seq<(Seq<char>, (Option<FidelityModel>, Option<FidelityModel>))>
    decreases enforced.len(),
{
    if enforced.len() == 0 {
        Seq::empty()
    } else {
        type_rows(h, enforced.drop_last()).push((enforced.last().0, type_row(h, enforced.last().1)))
    }
}

/// The credential section for host `h`, canonical blueprint `b` and catalog `c`.
pub open spec fn credentials_of(r: CredentialReport, h: HostModel, b: BlueprintModel, c: ResolvedCatalogModel) -> bool {
    &&& r.catalog_version == c.version
    &&& strs_view(r.allowed@) == b.allow_credentials
    &&& r.per_type@ == type_rows(h, enforced_of(c.types, b.allow_credentials))
    &&& crate::policy::opt_fidelity(r.backstop) == if b.allow_credentials.contains(crate::catalog::BACKSTOP@) {
        None
    } else {
        Some(path_fidelity(h, c.backstop))
    }
    &&& r.launcher_contingency@ == LAUNCHER_CONTINGENCY@
}

fn fs_fidelity(host: &HostProfile) -> (r: Fidelity)
    ensures
        r@ == fs_row(host@),
{
    match host.os {
        Os::MacOs => Fidelity::Enforced { backend: Backend::Seatbelt },
        Os::Linux => {
            let abi: u32 = match host.landlock_abi {
                Some(a) => a,
                None => 0,
            };
            if abi >= 1 {
                Fidelity::Enforced { backend: Backend::Landlock }
            } else {
                Fidelity::Unenforceable { reason: String::from_str(FS_UNAVAILABLE) }
            }
        },
    }
}

fn path_fidelity_exec(host: &HostProfile, paths: &Vec<PathPattern>) -> (r: Fidelity)
    ensures
        r@ == path_fidelity(host@, pats_view(paths@)),
{
    let base = fs_fidelity(host);
    let ghost pv = pats_view(paths@);
    let mut any = false;
    let mut i: usize = 0;
    while i < paths.len()
        invariant
            pv == pats_view(paths@),
            i <= paths.len(),
            any == exists|j: int| 0 <= j < i && (#[trigger] pv[j]).any_depth,
        decreases paths.len() - i,
    {
        assert(pv[i as int] == paths@[i as int]@);
        if paths[i].is_any_depth() {
            any = true;
        }
        i = i + 1;
    }
    if host.os == Os::Linux && base.is_enforced() && any {
        Fidelity::Partial { backend: Backend::Landlock, reason: String::from_str(ANY_DEPTH_WITHHELD) }
    } else {
        base
    }
}

/// Every still-enforced type labeled with the arm that carries each of its location kinds.
fn credential_report(catalog: &ResolvedCatalog, blueprint: &Blueprint, host: &HostProfile) -> (r: CredentialReport)
    ensures
        credentials_of(r, host@, blueprint@, catalog@),
{
    let enforced = catalog.enforced_types(&blueprint.allow_credentials);
    let _ = catalog.types.len();
    let ghost ev = enforced@.map_values(|e: (String, crate::catalog::ResolvedEntry)| (e.0@, e.1@));
    let mut per_type: NameMap<CredentialFidelity> = NameMap::new();
    let mut i: usize = 0;
    assert(ev.take(0) =~= Seq::<(Seq<char>, ResolvedEntryModel)>::empty());
    assert(per_type@ =~= type_rows(host@, ev.take(0)));
    while i < enforced.len()
        invariant
            ev == enforced@.map_values(|e: (String, crate::catalog::ResolvedEntry)| (e.0@, e.1@)),
            ev == crate::catalog::enforced_of(catalog@.types, strs_view(blueprint.allow_credentials@)),
            crate::names::names_sorted(crate::names::map_keys(catalog@.types)),
            i <= enforced.len(),
            per_type@ == type_rows(host@, ev.take(i as int)),
        decreases enforced.len() - i,
    {
        let ghost t = ev.take(i + 1);
        assert(t.drop_last() =~= ev.take(i as int));
        assert(t.last() == ev[i as int]);
        let entry = &enforced[i].1;
        let path = if entry.paths.len() > 0 {
            Some(path_fidelity_exec(host, &entry.paths))
        } else {
            None
        };
        let env = if entry.envs.len() > 0 {
            Some(Fidelity::Enforced { backend: Backend::Launcher })
        } else {
            None
        };
        proof {
            lemma_enforced_sorted(catalog@.types, strs_view(blueprint.allow_credentials@));
            if i > 0 {
                assert(crate::names::map_keys(ev)[i - 1] == ev[i - 1].0);
                assert(crate::names::map_keys(ev)[i as int] == ev[i as int].0);
                assert(crate::text::chars_lt(crate::names::map_keys(ev)[i - 1], crate::names::map_keys(ev)[i as int]));
                assert(per_type@.last().0 == ev[i - 1].0) by {
                    lemma_type_rows_keys(host@, ev.take(i as int));
                }
            }
        }
        per_type.push_last(copy_string(&enforced[i].0), CredentialFidelity { path, env });
        i = i + 1;
    }
    assert(ev.take(enforced.len() as int) =~= ev);
    let lifted = names_contain(&blueprint.allow_credentials, crate::catalog::BACKSTOP);
    let backstop = if lifted {
        None
    } else {
        Some(path_fidelity_exec(host, &catalog.backstop))
    };
    CredentialReport {
        catalog_version: catalog.version,
        allowed: copy_strings(&blueprint.allow_credentials),
        per_type,
        backstop,
        launcher_contingency: String::from_str(LAUNCHER_CONTINGENCY),
    }
}

proof fn lemma_type_rows_keys(h: HostModel, e: Seq<(Seq<char>, ResolvedEntryModel)>)
    ensures
        type_rows(h, e).len() == e.len(),
        forall|k: int| 0 <= k < e.len() ==> #[trigger] type_rows(h, e)[k].0 == e[k].0,
    decreases e.len(),
{
    if e.len() > 0 {
        lemma_type_rows_keys(h, e.drop_last());
    }
}

/// The enforced types keep the catalog's name order.
proof fn lemma_enforced_sorted(types: Seq<(Seq<char>, ResolvedEntryModel)>, allow: Seq<Seq<char>>)
    requires
        crate::names::names_sorted(crate::names::map_keys(types)),
    ensures
        crate::names::names_sorted(crate::names::map_keys(crate::catalog::enforced_of(types, allow))),
        forall|k: int| 0 <= k < crate::catalog::enforced_of(types, allow).len() ==> types.contains(#[trigger] crate::catalog::enforced_of(types, allow)[k]),
    decreases types.len(),
{
    if types.len() > 0 {
        let d = types.drop_last();
        assert(crate::names::map_keys(d) =~= crate::names::map_keys(types).drop_last());
        lemma_enforced_sorted(d, allow);
        let e = crate::catalog::enforced_of(d, allow);
        assert forall|k: int| 0 <= k < e.len() implies types.contains(#[trigger] e[k]) by {
            assert(d.contains(e[k]));
            let m = choose|m: int| 0 <= m < d.len() && d[m] == e[k];
            assert(types[m] == e[k]);
        }
        if !allow.contains(types.last().0) {
            let n = e.push(types.last());
            assert forall|a: int, b: int| 0 <= a < b < crate::names::map_keys(n).len() implies crate::text::chars_lt(#[trigger] crate::names::map_keys(n)[a], #[trigger] crate::names::map_keys(n)[b]) by {
                if b == n.len() - 1 {
                    assert(d.contains(e[a]));
                    let m = choose|m: int| 0 <= m < d.len() && d[m] == e[a];
                    assert(crate::text::chars_lt(crate::names::map_keys(types)[m], crate::names::map_keys(types)[types.len() - 1]));
                } else {
                    assert(crate::text::chars_lt(crate::names::map_keys(e)[a], crate::names::map_keys(e)[b]));
                }
            }
            assert forall|k: int| 0 <= k < n.len() implies types.contains(#[trigger] n[k]) by {
                if k == n.len() - 1 {
                    assert(types[types.len() - 1] == n[k]);
                } else {
                    assert(e[k] == n[k]);
                }
            }
        }
    }
}


// ---------------------------------------------------------------------------------------------
// The Seatbelt profile

/// `s` with every character of `special` escaped by a backslash.
pub open spec fn escaped(s: Seq<char>, special: Seq<char>) -> Seq<char>
    decreases s.len(),
{
    if s.len() == 0 {
        Seq::empty()
    } else if special.contains(s.last()) {
        escaped(s.drop_last(), special) + seq!['\\', s.last()]
    } else {
        escaped(s.drop_last(), special).push(s.last())
    }
}

/// The characters escaped inside a profile string.
pub open spec fn string_specials() -> Seq<char> {
    seq!['"', '\\']
}

/// The characters escaped inside a profile regex.
pub open spec fn regex_specials() -> Seq<char> {
    seq!['.', '^', '$', '*', '+', '?', '(', ')', '[', ']', '{', '}', '|', '\\', '"']
}

/// The path filter for one pattern: a literal, a subpath, or -- for the any-depth forms -- a regex
/// matching the suffix at any depth (below the anchor, if any).
pub open spec fn sbpl_filter(p: PatternModel) -> Seq<char> {
    if p.any_depth {
        let head = match p.anchor {
            Some(a) => "^"@ + escaped(crate::path::render_abs(a), regex_specials()) + "/(.*/)?"@,
            None => "(^|/)"@,
        };
        let tail = if p.subtree { "(/.*)?$"@ } else { "$"@ };
        "(regex #\""@ + head + escaped(crate::path::join(p.base), regex_specials()) + tail + "\")"@
    } else if p.subtree {
        "(subpath \""@ + escaped(crate::path::render_abs(p.base), string_specials()) + "\")"@
    } else {
        "(literal \""@ + escaped(crate::path::render_abs(p.base), string_specials()) + "\")"@
    }
}

pub open spec fn sbpl_filters(ps: Seq<PatternModel>) -> Seq<char>
    decreases ps.len(),
{
    if ps.len() == 0 {
        Seq::empty()
    } else {
        sbpl_filters(ps.drop_last()) + " "@ + sbpl_filter(ps.last())
    }
}

/// One rule over a pattern set; nothing for an empty set.
pub open spec fn sbpl_rule(head: Seq<char>, ps: Seq<PatternModel>) -> Seq<char> {
    if ps.len() == 0 {
        Seq::empty()
    } else {
        head + sbpl_filters(ps) + ")\n"@
    }
}

pub open spec fn sbpl_ports(ports: Seq<u16>) -> Seq<char>
    decreases ports.len(),
{
    if ports.len() == 0 {
        Seq::empty()
    } else {
        sbpl_ports(ports.drop_last()) + "(allow network-outbound (remote tcp \"*:"@ + decimal(ports.last() as nat) + "\"))\n"@
    }
}

/// The Seatbelt profile for a compile input: deny by default; process basics; exec as the posture
/// says; reads (ambient or the granted set); writes; modify-only grants; then the credential floor,
/// the operator's subtract holes and the write-only holes, which as later rules win over the
/// grants; then the network (denied, or the TCP port set).
pub open spec fn sbpl_model(i: InputModel) -> Seq<char> {
    "(version 1)\n(deny default)\n(allow process-fork signal sysctl-read mach-lookup ipc-posix-shm)\n"@
        + match i.exec_posture {
            ExecModel::Unrestricted => "(allow process-exec)\n"@,
            ExecModel::Allowlist(ps) => sbpl_rule("(allow process-exec"@, ps),
        }
        + if i.read_mode == ReadMode::AmbientMinusSubtract {
            "(allow file-read*)\n"@
        } else {
            sbpl_rule("(allow file-read*"@, i.effective_reads)
        }
        + sbpl_rule("(allow file-write*"@, i.writes)
        + sbpl_rule("(allow file-write-data"@, i.writes_no_create)
        + sbpl_rule("(deny file-read* file-write*"@, i.floor)
        + sbpl_rule("(deny file-read* file-write*"@, i.subtract)
        + sbpl_rule("(deny file-write*"@, i.write_subtract)
        + match i.net {
            NetModel::Deny => "(deny network*)\n"@,
            NetModel::Ports(ports) => sbpl_ports(ports),
        }
}

fn push_escaped(out: &mut String, s: &[char], special: &[char])
    ensures
        final(out)@ == old(out)@ + escaped(s@, special@),
{
    let ghost start = out@;
    let mut i: usize = 0;
    assert(s@.take(0) =~= Seq::<char>::empty());
    assert(start + escaped(s@.take(0), special@) =~= start);
    while i < s.len()
        invariant
            i <= s.len(),
            out@ == start + escaped(s@.take(i as int), special@),
        decreases s.len() - i,
    {
        let ghost t = s@.take(i + 1);
        assert(t.drop_last() =~= s@.take(i as int));
        assert(t.last() == s@[i as int]);
        let c = s[i];
        let mut hit = false;
        let mut j: usize = 0;
        while j < special.len()
            invariant
                j <= special.len(),
                hit == exists|m: int| 0 <= m < j && special@[m] == c,
            decreases special.len() - j,
        {
            if special[j] == c {
                hit = true;
            }
            j = j + 1;
        }
        if hit {
            crate::text::push_char(out, '\\');
        }
        crate::text::push_char(out, c);
        assert(out@ =~= start + escaped(t, special@));
        i = i + 1;
    }
    assert(s@.take(s.len() as int) =~= s@);
}

fn push_filter(out: &mut String, p: &PathPattern)
    ensures
        final(out)@ == old(out)@ + sbpl_filter(p@),
{
    let ghost start = out@;
    let rx: [char; 15] = ['.', '^', '$', '*', '+', '?', '(', ')', '[', ']', '{', '}', '|', '\\', '"'];
    let st: [char; 2] = ['"', '\\'];
    assert(rx@ =~= regex_specials());
    assert(st@ =~= string_specials());
    if p.is_any_depth() {
        push_str(out, "(regex #\"");
        let ghost h0 = out@;
        match p.anchor_comps() {
            Some(a) => {
                push_str(out, "^");
                let mut t = String::new();
                crate::path::push_abs(&mut t, a);
                let tc = crate::text::chars_of(t.as_str());
                push_escaped(out, tc.as_slice(), rx.as_slice());
                push_str(out, "/(.*/)?");
            },
            None => {
                push_str(out, "(^|/)");
            },
        }
        let mut b = String::new();
        crate::path::push_joined(&mut b, p.base_comps());
        let bc = crate::text::chars_of(b.as_str());
        push_escaped(out, bc.as_slice(), rx.as_slice());
        if p.is_subtree() {
            push_str(out, "(/.*)?$");
        } else {
            push_str(out, "$");
        }
        push_str(out, "\")");
    } else {
        if p.is_subtree() {
            push_str(out, "(subpath \"");
        } else {
            push_str(out, "(literal \"");
        }
        let mut t = String::new();
        crate::path::push_abs(&mut t, p.base_comps());
        let tc = crate::text::chars_of(t.as_str());
        push_escaped(out, tc.as_slice(), st.as_slice());
        push_str(out, "\")");
    }
    assert(out@ =~= start + sbpl_filter(p@));
}

fn push_rule(out: &mut String, head: &str, ps: &Vec<PathPattern>)
    ensures
        final(out)@ == old(out)@ + sbpl_rule(head@, pats_view(ps@)),
{
    if ps.len() == 0 {
        assert(old(out)@ + sbpl_rule(head@, pats_view(ps@)) =~= old(out)@);
        return;
    }
    let ghost start = out@;
    let ghost pv = pats_view(ps@);
    push_str(out, head);
    let ghost h = out@;
    let mut i: usize = 0;
    assert(pv.take(0) =~= Seq::<PatternModel>::empty());
    assert(h + sbpl_filters(pv.take(0)) =~= h);
    while i < ps.len()
        invariant
            pv == pats_view(ps@),
            i <= ps.len(),
            out@ == h + sbpl_filters(pv.take(i as int)),
        decreases ps.len() - i,
    {
        let ghost t = pv.take(i + 1);
        assert(t.drop_last() =~= pv.take(i as int));
        assert(t.last() == ps@[i as int]@);
        push_str(out, " ");
        push_filter(out, &ps[i]);
        assert(out@ =~= h + sbpl_filters(t));
        i = i + 1;
    }
    assert(pv.take(ps.len() as int) =~= pv);
    push_str(out, ")\n");
    assert(out@ =~= start + sbpl_rule(head@, pv));
}

/// Renders the Seatbelt profile of a compile input.
pub fn render_sbpl(input: &CompileInput) -> (r: String)
    ensures
        r@ == sbpl_model(input@),
{
    let mut out = String::from_str("(version 1)\n(deny default)\n(allow process-fork signal sysctl-read mach-lookup ipc-posix-shm)\n");
    let ghost s0 = out@;
    match &input.exec_posture {
        ExecPosture::Unrestricted => push_str(&mut out, "(allow process-exec)\n"),
        ExecPosture::Allowlist(ps) => push_rule(&mut out, "(allow process-exec", ps),
    }
    let ghost s1 = out@;
    if input.read_mode == ReadMode::AmbientMinusSubtract {
        push_str(&mut out, "(allow file-read*)\n");
    } else {
        push_rule(&mut out, "(allow file-read*", &input.effective_reads);
    }
    let ghost s2 = out@;
    push_rule(&mut out, "(allow file-write*", &input.writes);
    push_rule(&mut out, "(allow file-write-data", &input.writes_no_create);
    push_rule(&mut out, "(deny file-read* file-write*", &input.floor);
    push_rule(&mut out, "(deny file-read* file-write*", &input.subtract);
    push_rule(&mut out, "(deny file-write*", &input.write_subtract);
    let ghost s3 = out@;
    match &input.net {
        NetPosture::Deny => push_str(&mut out, "(deny network*)\n"),
        NetPosture::Ports(ports) => {
            let mut i: usize = 0;
            assert(ports@.take(0) =~= Seq::<u16>::empty());
            assert(s3 + sbpl_ports(ports@.take(0)) =~= s3);
            while i < ports.len()
                invariant
                    i <= ports.len(),
                    out@ == s3 + sbpl_ports(ports@.take(i as int)),
                decreases ports.len() - i,
            {
                let ghost t = ports@.take(i + 1);
                assert(t.drop_last() =~= ports@.take(i as int));
                assert(t.last() == ports@[i as int]);
                push_str(&mut out, "(allow network-outbound (remote tcp \"*:");
                push_decimal(&mut out, ports[i] as u64);
                push_str(&mut out, "\"))\n");
                assert(out@ =~= s3 + sbpl_ports(t));
                i = i + 1;
            }
            assert(ports@.take(ports.len() as int) =~= ports@);
        },
    }
    assert(out@ =~= sbpl_model(input@));
    out
}


// ---------------------------------------------------------------------------------------------
// The backends and the compiler

/// The patterns that are not any-depth, in order.
pub open spec fn absolute_rows(ps: Seq<PatternModel>) -> Seq<PatternModel>
    decreases ps.len(),
{
    if ps.len() == 0 {
        Seq::empty()
    } else if ps.last().any_depth {
        absolute_rows(ps.drop_last())
    } else {
        absolute_rows(ps.drop_last()).push(ps.last())
    }
}

pub open spec fn exec_plan_view(e: ExecPlan) -> ExecModel {
    match e {
        ExecPlan::Unrestricted => ExecModel::Unrestricted,
        ExecPlan::Allowlist { paths } => ExecModel::Allowlist(pats_view(paths@)),
    }
}

/// The Linux policy: the canonical grants and holes, with the floor's absolute rows riding the
/// subtract holes (any-depth rows cannot be rooted Landlock rules; they are withheld and the
/// credential section says so), the exec plan, the net plan and its seccomp baseline.
pub open spec fn linux_policy_ok(p: LinuxPolicy, h: HostModel, i: InputModel) -> bool {
    &&& p.landlock_abi_target == h.landlock_abi
    &&& p.read_mode == i.read_mode
    &&& pats_view(p.reads@) == i.effective_reads
    &&& pats_view(p.writes@) == i.writes
    &&& pats_view(p.writes_no_create@) == i.writes_no_create
    &&& canonical_set_of(pats_view(p.subtract@), i.subtract + absolute_rows(i.floor))
    &&& pats_view(p.write_subtract@) == i.write_subtract
    &&& exec_plan_view(p.exec_plan) == i.exec_posture
    &&& net_plan_view(p.net) == net_plan_model(h, i.net).0
    &&& seccomp_view(p.seccomp) == seccomp_model(net_plan_model(h, i.net).1)
    &&& p.no_new_privs
}

/// macOS always gets a Seatbelt profile; Linux gets the Linux policy unless the host has neither
/// Landlock nor seccomp, in which case the confiner is unavailable and says why.
pub open spec fn confiner_ok(c: ConfinerPolicy, h: HostModel, i: InputModel) -> bool {
    match h.os {
        Os::MacOs => c matches ConfinerPolicy::Macos(m) && m.sbpl@ == sbpl_model(i),
        Os::Linux => if abi_of(h) < 1 && !h.seccomp {
            c matches ConfinerPolicy::Unavailable { reason } && reason@ == NO_CONFINER@
        } else {
            c matches ConfinerPolicy::Linux(p) && linux_policy_ok(*p, h, i)
        },
    }
}

/// The direct TCP ports the gateway mirrors: the port set wherever the port tier holds.
pub open spec fn direct_ports(h: HostModel, i: InputModel) -> Seq<u16> {
    match (h.os, i.net) {
        (Os::MacOs, NetModel::Ports(p)) => p,
        (Os::Linux, NetModel::Ports(p)) => if net_plan_model(h, i.net).2 == PortTier::Enforced {
            p
        } else {
            Seq::empty()
        },
        _ => Seq::empty(),
    }
}

/// `r` is the compiled policy for host `h`, canonical blueprint `b`, its compile input `i` and
/// catalog `c`.
pub open spec fn compiled_of(r: CompiledPolicy, h: HostModel, b: BlueprintModel, i: InputModel, c: ResolvedCatalogModel) -> bool {
    &&& confiner_ok(r.confiner, h, i)
    &&& r.gateway.servers@ == b.mcp
    &&& r.gateway.direct_tcp_ports@ == direct_ports(h, i)
    &&& r.report.host@ == h
    &&& r.report.per_capability@ == expected_rows(h, b)
    &&& r.report.semantics@ == expected_semantics(h, b)
    &&& credentials_of(r.report.credentials, h, b, c)
}

fn net_fidelity(host: &HostProfile, inet: InetSeccompDeny) -> (r: Fidelity)
    requires
        host@.os == Os::Linux,
    ensures
        forall|n: NetModel| net_plan_model(host@, n).1 == inet ==> r@ == net_row(host@, n),
{
    match inet {
        InetSeccompDeny::FullInet => if host.seccomp {
            Fidelity::Enforced { backend: Backend::Seccomp }
        } else {
            Fidelity::Unenforceable { reason: String::from_str(NET_UNENFORCEABLE) }
        },
        InetSeccompDeny::DgramRawOnly => if host.seccomp {
            Fidelity::Enforced { backend: Backend::Landlock }
        } else {
            Fidelity::Partial { backend: Backend::Landlock, reason: String::from_str(NET_TCP_ONLY) }
        },
    }
}

pub open spec fn set_row<T>(t: Seq<Option<T>>, c: Capability, v: Option<T>) -> Seq<Option<T>> {
    match v {
        Some(x) => t.update(cap_index(c), Some(x)),
        None => t,
    }
}

/// The rows the Linux backend reports.
pub open spec fn linux_rows(t: Seq<Option<FidelityModel>>, h: HostModel, i: InputModel) -> Seq<Option<FidelityModel>> {
    let t1 = t.update(0, Some(fs_row(h))).update(1, Some(fs_row(h))).update(2, Some(net_row(h, i.net)));
    let t2 = set_row(set_row(t1, Capability::NetPortTier, port_row(h, i.net)), Capability::Exec, exec_row(h, i.exec_posture));
    t2.update(6, Some(xdomain_row(h)))
}

pub open spec fn backend_semantics(t: Seq<Option<DenialSemantics>>, h: HostModel, i: InputModel) -> Seq<Option<DenialSemantics>> {
    let d = Some(DenialSemantics::Deny);
    let t1 = t.update(0, d).update(1, d).update(2, d);
    let t2 = set_row(set_row(t1, Capability::NetPortTier, if port_row(h, i.net) is Some { d } else { None }), Capability::Exec, if i.exec_posture is Allowlist { d } else { None });
    t2.update(6, d)
}

fn compile_linux(
    input: &CompileInput,
    host: &HostProfile,
    caps: &mut CapabilityMap<Fidelity>,
    sem: &mut CapabilityMap<DenialSemantics>,
) -> (r: (ConfinerPolicy, Vec<u16>))
    requires
        host@.os == Os::Linux,
    ensures
        final(caps)@ == linux_rows(old(caps)@, host@, input@),
        final(sem)@ == backend_semantics(old(sem)@, host@, input@),
        confiner_ok(r.0, host@, input@),
        r.1@ == direct_ports(host@, input@),
{
    let abi: u32 = match host.landlock_abi {
        Some(a) => a,
        None => 0,
    };
    let has_landlock = abi >= 1;
    // Filesystem read and write need Landlock; report honestly if it is absent.
    caps.insert(Capability::FsRead, fs_fidelity(host));
    caps.insert(Capability::FsWrite, fs_fidelity(host));
    sem.insert(Capability::FsRead, DenialSemantics::Deny);
    sem.insert(Capability::FsWrite, DenialSemantics::Deny);
    let (net_plan_v, inet_deny, tier) = net_plan(host, &input.net);
    caps.insert(Capability::NetDefaultDeny, net_fidelity(host, inet_deny));
    sem.insert(Capability::NetDefaultDeny, DenialSemantics::Deny);
    let mut direct_tcp: Vec<u16> = Vec::new();
    match tier {
        PortTier::NotRequested => {},
        PortTier::Enforced => {
            caps.insert(Capability::NetPortTier, Fidelity::Enforced { backend: Backend::Landlock });
            sem.insert(Capability::NetPortTier, DenialSemantics::Deny);
            if let NetPosture::Ports(ports) = &input.net {
                direct_tcp = ports.clone();
                assert(direct_tcp@ =~= ports@);
            }
        },
        PortTier::UnenforceableBelowAbi4 => {
            let mut reason = String::from_str(PORT_TIER_NEEDS);
            push_decimal(&mut reason, abi as u64);
            push_str(&mut reason, PORT_TIER_FALLBACK);
            caps.insert(Capability::NetPortTier, Fidelity::Unenforceable { reason });
            sem.insert(Capability::NetPortTier, DenialSemantics::Deny);
        },
    }
    // The optional exec allow-list rides Landlock's execute right; seccomp cannot filter execve
    // by path.
    let exec_plan = match &input.exec_posture {
        ExecPosture::Unrestricted => ExecPlan::Unrestricted,
        ExecPosture::Allowlist(paths) => {
            if has_landlock {
                caps.insert(Capability::Exec, Fidelity::Enforced { backend: Backend::Landlock });
            } else {
                caps.insert(Capability::Exec, Fidelity::Unenforceable { reason: String::from_str(EXEC_UNAVAILABLE) });
            }
            sem.insert(Capability::Exec, DenialSemantics::Deny);
            ExecPlan::Allowlist { paths: copy_patterns(paths) }
        },
    };
    // Cross-domain UNIX-socket scoping: coarse and recent (ABI 6); a reported gap below it.
    if abi >= 6 {
        caps.insert(Capability::CrossDomainSocket, Fidelity::Partial { backend: Backend::Landlock, reason: String::from_str(XDOMAIN_COARSE) });
    } else {
        caps.insert(Capability::CrossDomainSocket, Fidelity::Unenforceable { reason: String::from_str(XDOMAIN_NEEDS) });
    }
    sem.insert(Capability::CrossDomainSocket, DenialSemantics::Deny);
    proof {
        assert(caps@ =~= linux_rows(old(caps)@, host@, input@));
        assert(sem@ =~= backend_semantics(old(sem)@, host@, input@));
    }
    if !has_landlock && !host.seccomp {
        return (ConfinerPolicy::Unavailable { reason: String::from_str(NO_CONFINER) }, Vec::new());
    }
    let seccomp = seccomp_plan(inet_deny);
    // The floor's absolute rows ride the subtract holes.
    let mut subtract = copy_patterns(&input.subtract);
    let ghost s0 = pats_view(subtract@);
    let ghost fv = pats_view(input.floor@);
    let mut k: usize = 0;
    assert(fv.take(0) =~= Seq::<PatternModel>::empty());
    assert(s0 + absolute_rows(fv.take(0)) =~= s0);
    while k < input.floor.len()
        invariant
            fv == pats_view(input.floor@),
            k <= input.floor.len(),
            pats_view(subtract@) == s0 + absolute_rows(fv.take(k as int)),
        decreases input.floor.len() - k,
    {
        let ghost t = fv.take(k + 1);
        assert(t.drop_last() =~= fv.take(k as int));
        assert(t.last() == input.floor@[k as int]@);
        if !input.floor[k].is_any_depth() {
            let p = input.floor[k].copy();
            let ghost before = pats_view(subtract@);
            subtract.push(p);
            assert(pats_view(subtract@) =~= before.push(p@));
        }
        assert(pats_view(subtract@) =~= s0 + absolute_rows(t));
        k = k + 1;
    }
    assert(fv.take(input.floor.len() as int) =~= fv);
    let policy = LinuxPolicy {
        landlock_abi_target: host.landlock_abi,
        read_mode: input.read_mode,
        reads: copy_patterns(&input.effective_reads),
        writes: copy_patterns(&input.writes),
        writes_no_create: copy_patterns(&input.writes_no_create),
        subtract: canonicalize_set(subtract.as_slice()),
        write_subtract: copy_patterns(&input.write_subtract),
        exec_plan,
        net: net_plan_v,
        seccomp,
        no_new_privs: true,
    };
    (ConfinerPolicy::Linux(Box::new(policy)), direct_tcp)
}

fn compile_macos(
    input: &CompileInput,
    host: &HostProfile,
    caps: &mut CapabilityMap<Fidelity>,
    sem: &mut CapabilityMap<DenialSemantics>,
) -> (r: (ConfinerPolicy, Vec<u16>))
    requires
        host@.os == Os::MacOs,
    ensures
        final(caps)@ == linux_rows(old(caps)@, host@, input@),
        final(sem)@ == backend_semantics(old(sem)@, host@, input@),
        confiner_ok(r.0, host@, input@),
        r.1@ == direct_ports(host@, input@),
{
    let sbpl = render_sbpl(input);
    caps.insert(Capability::FsRead, Fidelity::Enforced { backend: Backend::Seatbelt });
    caps.insert(Capability::FsWrite, Fidelity::Enforced { backend: Backend::Seatbelt });
    caps.insert(Capability::NetDefaultDeny, Fidelity::Enforced { backend: Backend::Seatbelt });
    sem.insert(Capability::FsRead, DenialSemantics::Deny);
    sem.insert(Capability::FsWrite, DenialSemantics::Deny);
    sem.insert(Capability::NetDefaultDeny, DenialSemantics::Deny);
    let mut direct_tcp: Vec<u16> = Vec::new();
    if let NetPosture::Ports(ports) = &input.net {
        caps.insert(Capability::NetPortTier, Fidelity::Enforced { backend: Backend::Seatbelt });
        sem.insert(Capability::NetPortTier, DenialSemantics::Deny);
        direct_tcp = ports.clone();
        assert(direct_tcp@ =~= ports@);
    }
    if let ExecPosture::Allowlist(_) = &input.exec_posture {
        caps.insert(Capability::Exec, Fidelity::Enforced { backend: Backend::Seatbelt });
        sem.insert(Capability::Exec, DenialSemantics::Deny);
    }
    // Seatbelt path-gates UNIX sockets, so cross-domain socket control is clean here.
    caps.insert(Capability::CrossDomainSocket, Fidelity::Enforced { backend: Backend::Seatbelt });
    sem.insert(Capability::CrossDomainSocket, DenialSemantics::Deny);
    proof {
        assert(caps@ =~= linux_rows(old(caps)@, host@, input@));
        assert(sem@ =~= backend_semantics(old(sem)@, host@, input@));
    }
    (ConfinerPolicy::Macos(MacosPolicy { sbpl }), direct_tcp)
}

/// Pure and deterministic in `(blueprint, host, catalog)`. The catalog is a mandatory input: the
/// credential floor cannot be forgotten, only explicitly resolved (or, in tests, explicitly
/// emptied) where `$HOME` is known.
pub fn compile(blueprint: &Blueprint, host: &HostProfile, catalog: &ResolvedCatalog) -> (r: CompiledPolicy)
    ensures
        exists|b: BlueprintModel, i: InputModel| blueprint_canonical_of(b, blueprint@) && input_of(i, b, catalog@)
            && compiled_of(r, host@, b, i, catalog@),
{
    let cb = blueprint.canonicalize();
    let input = CompileInput::from_blueprint(&cb, catalog);
    let mut caps: CapabilityMap<Fidelity> = CapabilityMap::new();
    let mut sem: CapabilityMap<DenialSemantics> = CapabilityMap::new();
    let (confiner, direct_tcp_ports) = match host.os {
        Os::MacOs => compile_macos(&input, host, &mut caps, &mut sem),
        Os::Linux => compile_linux(&input, host, &mut caps, &mut sem),
    };
    // Filesystem invisibility is never provided; the report states it.
    caps.insert(Capability::FsInvisibility, Fidelity::Unenforceable { reason: String::from_str(NO_INVISIBILITY) });
    sem.insert(Capability::FsInvisibility, DenialSemantics::Deny);
    // The environment posture is applied at spawn, independent of the OS confiner.
    match &cb.env {
        EnvPosture::Passthrough => {},
        EnvPosture::Allowlist(_) => {
            caps.insert(Capability::EnvScrub, Fidelity::Enforced { backend: Backend::Launcher });
            sem.insert(Capability::EnvScrub, DenialSemantics::Hide);
        },
        EnvPosture::Scrub(_) => {
            caps.insert(Capability::EnvScrub, Fidelity::Partial { backend: Backend::Launcher, reason: String::from_str(SCRUB_HEURISTIC) });
            sem.insert(Capability::EnvScrub, DenialSemantics::Hide);
        },
    }
    // MCP shading is a gateway property, independent of the OS confiner.
    if !cb.mcp.is_empty() {
        caps.insert(Capability::McpShading, Fidelity::Enforced { backend: Backend::Gateway });
        sem.insert(Capability::McpShading, DenialSemantics::Hide);
    }
    proof {
        assert(caps@ =~= expected_rows(host@, cb@));
        assert(sem@ =~= expected_semantics(host@, cb@));
    }
    let credentials = credential_report(catalog, &cb, host);
    let report = FidelityReport { host: host.copy(), per_capability: caps, semantics: sem, credentials };
    let gateway = GatewayPolicy { servers: cb.mcp, direct_tcp_ports };
    CompiledPolicy { confiner, gateway, report }
}


// ---------------------------------------------------------------------------------------------
// Laws of the compiler

/// The compile input is a function of the canonical blueprint and the catalog, so the compiled
/// policy is too: equal capabilities compile identically, whatever the order or repetition of the
/// blueprint's entries.
pub proof fn compile_input_is_unique(i1: InputModel, i2: InputModel, b: BlueprintModel, c: ResolvedCatalogModel)
    requires
        input_of(i1, b, c),
        input_of(i2, b, c),
    ensures
        i1 == i2,
{
    let rw = b.fs.reads + b.fs.writes + b.fs.writes_no_create;
    crate::path_set::canonicalize_set_ignores_order(rw, rw, i1.effective_reads, i2.effective_reads);
    crate::path_set::canonicalize_set_ignores_order(b.fs.writes, b.fs.writes, i1.writes, i2.writes);
    crate::path_set::canonicalize_set_ignores_order(b.fs.writes_no_create, b.fs.writes_no_create, i1.writes_no_create, i2.writes_no_create);
    crate::path_set::canonicalize_set_ignores_order(b.fs.subtract, b.fs.subtract, i1.subtract, i2.subtract);
    crate::path_set::canonicalize_set_ignores_order(b.fs.write_subtract, b.fs.write_subtract, i1.write_subtract, i2.write_subtract);
    let f = denied_of(c, b.allow_credentials);
    crate::path_set::canonicalize_set_ignores_order(f, f, i1.floor, i2.floor);
    let e = paths_of(crate::launcher::allowed_of(c.types, b.allow_credentials));
    crate::path_set::canonicalize_set_ignores_order(e, e, i1.floor_exempt, i2.floor_exempt);
}

/// Compiling is a function of the canonical blueprint: two blueprints with one canonical form
/// compile, on one host and catalog, to the compiled policy of one model, with the same confiner,
/// gateway and report rows, whatever the order or repetition of their entries.
pub proof fn equal_canonical_forms_compile_alike(
    r1: CompiledPolicy,
    r2: CompiledPolicy,
    h: HostModel,
    x1: BlueprintModel,
    x2: BlueprintModel,
    b: BlueprintModel,
    c: ResolvedCatalogModel,
)
    requires
        blueprint_canonical_of(b, x1),
        blueprint_canonical_of(b, x2),
        exists|b1: BlueprintModel, i1: InputModel| blueprint_canonical_of(b1, x1) && input_of(i1, b1, c) && compiled_of(r1, h, b1, i1, c),
        exists|b2: BlueprintModel, i2: InputModel| blueprint_canonical_of(b2, x2) && input_of(i2, b2, c) && compiled_of(r2, h, b2, i2, c),
    ensures
        exists|i: InputModel| input_of(i, b, c) && compiled_of(r1, h, b, i, c) && compiled_of(r2, h, b, i, c),
        r1.gateway.servers@ == r2.gateway.servers@,
        r1.gateway.direct_tcp_ports@ == r2.gateway.direct_tcp_ports@,
        r1.report.per_capability@ == r2.report.per_capability@,
        r1.report.semantics@ == r2.report.semantics@,
        r1.report.credentials.per_type@ == r2.report.credentials.per_type@,
        r1.confiner matches ConfinerPolicy::Macos(m1) ==> r2.confiner matches ConfinerPolicy::Macos(m2) && m1.sbpl@ == m2.sbpl@,
{
    let (b1, i1) = choose|b1: BlueprintModel, i1: InputModel| blueprint_canonical_of(b1, x1) && input_of(i1, b1, c) && compiled_of(r1, h, b1, i1, c);
    let (b2, i2) = choose|b2: BlueprintModel, i2: InputModel| blueprint_canonical_of(b2, x2) && input_of(i2, b2, c) && compiled_of(r2, h, b2, i2, c);
    crate::blueprint::canonical_form_is_unique(b1, b, x1);
    crate::blueprint::canonical_form_is_unique(b2, b, x2);
    compile_input_is_unique(i1, i2, b, c);
}

/// On Linux the confiner and its report rows follow the host: the confiner is unavailable exactly
/// when there is neither Landlock nor seccomp (and then no port is mirrored directly); filesystem
/// reads are enforced by Landlock exactly from ABI 1, and without it both filesystem rows are
/// unenforceable; cross-domain sockets are partially held by Landlock exactly from ABI 6; the
/// net default-deny row is always present. The compiled Linux policy carries the input's grants,
/// read mode and write-subtract unchanged, the floor's absolute rows in its subtract set, the
/// host's ABI as its target, and `NO_NEW_PRIVS`.
pub proof fn linux_confinement_follows_the_host(r: CompiledPolicy, h: HostModel, b: BlueprintModel, i: InputModel, c: ResolvedCatalogModel)
    requires
        h.os == Os::Linux,
        compiled_of(r, h, b, i, c),
    ensures
        r.confiner is Unavailable <==> abi_of(h) == 0 && !h.seccomp,
        r.confiner is Unavailable ==> r.gateway.direct_tcp_ports@.len() == 0,
        r.report.per_capability@[cap_index(Capability::FsRead)] == Some(FidelityModel::Enforced { backend: Backend::Landlock }) <==> abi_of(h) >= 1,
        abi_of(h) == 0 ==> (r.report.per_capability@[cap_index(Capability::FsRead)] matches Some(FidelityModel::Unenforceable { .. }))
            && (r.report.per_capability@[cap_index(Capability::FsWrite)] matches Some(FidelityModel::Unenforceable { .. })),
        r.report.per_capability@[cap_index(Capability::CrossDomainSocket)] matches Some(FidelityModel::Partial { backend: Backend::Landlock, .. }) <==> abi_of(h) >= 6,
        r.report.per_capability@[cap_index(Capability::NetDefaultDeny)] is Some,
        r.confiner matches ConfinerPolicy::Linux(p) ==> {
            &&& canonical_set_of(pats_view(p.subtract@), i.subtract + absolute_rows(i.floor))
            &&& pats_view(p.reads@) == i.effective_reads
            &&& pats_view(p.writes@) == i.writes
            &&& pats_view(p.write_subtract@) == i.write_subtract
            &&& p.read_mode == i.read_mode
            &&& p.landlock_abi_target == h.landlock_abi
            &&& p.no_new_privs
        },
{
}

proof fn lemma_enforced_members(types: Seq<(Seq<char>, ResolvedEntryModel)>, allow: Seq<Seq<char>>)
    ensures
        forall|j: int| 0 <= j < enforced_of(types, allow).len() ==> exists|k: int| 0 <= k < types.len()
            && types[k] == #[trigger] enforced_of(types, allow)[j] && !allow.contains(types[k].0),
        forall|k: int| 0 <= k < types.len() && !allow.contains(#[trigger] types[k].0) ==> exists|j: int|
            0 <= j < enforced_of(types, allow).len() && enforced_of(types, allow)[j] == types[k],
    decreases types.len(),
{
    if types.len() > 0 {
        let init = types.drop_last();
        lemma_enforced_members(init, allow);
        let e0 = enforced_of(init, allow);
        let e = enforced_of(types, allow);
        assert forall|j: int| 0 <= j < e.len() implies exists|k: int| 0 <= k < types.len()
            && types[k] == #[trigger] e[j] && !allow.contains(types[k].0) by {
            if j < e0.len() {
                assert(e[j] == e0[j]);
                let k = choose|k: int| 0 <= k < init.len() && init[k] == e0[j] && !allow.contains(init[k].0);
                assert(types[k] == init[k]);
            } else {
                assert(types[types.len() - 1] == e[j]);
            }
        }
        assert forall|k: int| 0 <= k < types.len() && !allow.contains(#[trigger] types[k].0) implies exists|j: int|
            0 <= j < e.len() && e[j] == types[k] by {
            if k < init.len() {
                assert(init[k] == types[k]);
                let j = choose|j: int| 0 <= j < e0.len() && e0[j] == init[k];
                assert(e[j] == e0[j]);
            } else {
                assert(e[e.len() - 1] == types[k]);
            }
        }
    }
}

proof fn lemma_type_rows_at(h: HostModel, enforced: Seq<(Seq<char>, ResolvedEntryModel)>)
    ensures
        type_rows(h, enforced).len() == enforced.len(),
        forall|j: int| 0 <= j < enforced.len() ==> #[trigger] type_rows(h, enforced)[j] == (enforced[j].0, type_row(h, enforced[j].1)),
    decreases enforced.len(),
{
    if enforced.len() > 0 {
        lemma_type_rows_at(h, enforced.drop_last());
        let r = type_rows(h, enforced);
        assert forall|j: int| 0 <= j < enforced.len() implies #[trigger] r[j] == (enforced[j].0, type_row(h, enforced[j].1)) by {
            if j < enforced.len() - 1 {
                assert(r[j] == type_rows(h, enforced.drop_last())[j]);
                assert(enforced[j] == enforced.drop_last()[j]);
            }
        }
    }
}

/// The credential section lists the deliberate exclusions, and exactly one row per catalog type
/// they leave enforced: its path arm present exactly when the type names paths (partial under
/// Landlock when one of them is any-depth), its environment arm exactly when it names variables.
/// The backstop row is absent exactly when the backstop itself is excluded.
pub proof fn credential_rows_cover_the_enforced_types(r: CredentialReport, h: HostModel, b: BlueprintModel, c: ResolvedCatalogModel)
    requires
        credentials_of(r, h, b, c),
    ensures
        strs_view(r.allowed@) == b.allow_credentials,
        forall|j: int| #![trigger r.per_type@[j]] 0 <= j < r.per_type@.len() ==> exists|k: int| #![trigger c.types[k]] 0 <= k < c.types.len()
            && c.types[k].0 == r.per_type@[j].0
            && !b.allow_credentials.contains(c.types[k].0)
            && (r.per_type@[j].1.0 is Some <==> c.types[k].1.paths.len() > 0)
            && (r.per_type@[j].1.1 is Some <==> c.types[k].1.envs.len() > 0)
            && (h.os == Os::Linux && abi_of(h) >= 1 && (exists|q: int| 0 <= q < c.types[k].1.paths.len() && (#[trigger] c.types[k].1.paths[q]).any_depth)
                ==> r.per_type@[j].1.0 matches Some(FidelityModel::Partial { backend: Backend::Landlock, .. })),
        forall|k: int| 0 <= k < c.types.len() && !b.allow_credentials.contains(#[trigger] c.types[k].0) ==> exists|j: int|
            0 <= j < r.per_type@.len() && r.per_type@[j].0 == c.types[k].0,
        crate::policy::opt_fidelity(r.backstop) is None <==> b.allow_credentials.contains(crate::catalog::BACKSTOP@),
{
    let e = enforced_of(c.types, b.allow_credentials);
    lemma_enforced_members(c.types, b.allow_credentials);
    lemma_type_rows_at(h, e);
    assert forall|j: int| #![trigger r.per_type@[j]] 0 <= j < r.per_type@.len() implies exists|k: int| #![trigger c.types[k]] 0 <= k < c.types.len()
        && c.types[k].0 == r.per_type@[j].0
        && !b.allow_credentials.contains(c.types[k].0)
        && (r.per_type@[j].1.0 is Some <==> c.types[k].1.paths.len() > 0)
        && (r.per_type@[j].1.1 is Some <==> c.types[k].1.envs.len() > 0)
        && (h.os == Os::Linux && abi_of(h) >= 1 && (exists|q: int| 0 <= q < c.types[k].1.paths.len() && (#[trigger] c.types[k].1.paths[q]).any_depth)
            ==> r.per_type@[j].1.0 matches Some(FidelityModel::Partial { backend: Backend::Landlock, .. })) by {
        assert(r.per_type@[j] == type_rows(h, e)[j]);
        let k = choose|k: int| 0 <= k < c.types.len() && c.types[k] == #[trigger] e[j] && !b.allow_credentials.contains(c.types[k].0);
        assert(c.types[k] == e[j]);
    }
    assert forall|k: int| 0 <= k < c.types.len() && !b.allow_credentials.contains(#[trigger] c.types[k].0) implies exists|j: int|
        0 <= j < r.per_type@.len() && r.per_type@[j].0 == c.types[k].0 by {
        let j = choose|j: int| 0 <= j < e.len() && e[j] == c.types[k];
        assert(r.per_type@[j] == type_rows(h, e)[j]);
    }
}

/// Every capability the report claims enforced names a real backend.
pub proof fn enforced_rows_name_a_backend(h: HostModel, b: BlueprintModel)
    ensures
        forall|k: int| 0 <= k < 9 ==> (#[trigger] expected_rows(h, b)[k] matches Some(FidelityModel::Enforced { backend }) ==> backend != Backend::Unbacked),
        forall|j: int| 0 <= j < crate::policy::enforced_rows(expected_rows(h, b), 9).len()
            ==> (#[trigger] crate::policy::enforced_rows(expected_rows(h, b), 9)[j]).1 != Backend::Unbacked,
{
    let t = expected_rows(h, b);
    let r = crate::policy::enforced_rows(t, 9);
    crate::policy::enforced_rows_are_exactly_the_enforced(t, 9);
    assert forall|j: int| 0 <= j < r.len() implies (#[trigger] r[j]).1 != Backend::Unbacked by {
        assert(r.contains(r[j]));
        assert(r.contains((r[j].0, r[j].1)));
        let k = cap_index(r[j].0);
        assert(0 <= k < 9) by {
            match r[j].0 {
                _ => {},
            }
        }
    }
}

/// Net default-deny is always reported, never silently absent; where a host cannot carry it the
/// row is unenforceable with a reason, and otherwise it fails closed (enforced or partial).
pub proof fn net_is_never_silently_open(h: HostModel, b: BlueprintModel)
    ensures
        expected_rows(h, b)[cap_index(Capability::NetDefaultDeny)] is Some,
        match expected_rows(h, b)[cap_index(Capability::NetDefaultDeny)] {
            Some(FidelityModel::Unenforceable { reason }) => reason.len() > 0 && h.os == Os::Linux && !h.seccomp,
            _ => true,
        },
{
    reveal_strlit("neither Landlock net rules nor seccomp available; direct egress cannot be denied");
}

proof fn lemma_absolute_rows_keep(ps: Seq<PatternModel>, x: PatternModel)
    requires
        ps.contains(x),
        !x.any_depth,
    ensures
        absolute_rows(ps).contains(x),
    decreases ps.len(),
{
    if ps.last() == x {
        assert(absolute_rows(ps).last() == x);
    } else {
        let k = choose|k: int| 0 <= k < ps.len() && ps[k] == x;
        assert(ps.drop_last()[k] == x);
        lemma_absolute_rows_keep(ps.drop_last(), x);
        let j = choose|j: int| 0 <= j < absolute_rows(ps.drop_last()).len() && absolute_rows(ps.drop_last())[j] == x;
        if !ps.last().any_depth {
            assert(absolute_rows(ps)[j] == x);
        }
    }
}

proof fn lemma_absolute_rows_from(ps: Seq<PatternModel>, x: PatternModel)
    requires
        absolute_rows(ps).contains(x),
    ensures
        ps.contains(x),
    decreases ps.len(),
{
    if ps.len() > 0 {
        if !ps.last().any_depth && x == ps.last() {
            assert(ps[ps.len() - 1] == x);
        } else {
            if !ps.last().any_depth {
                let j = choose|j: int| 0 <= j < absolute_rows(ps).len() && absolute_rows(ps)[j] == x;
                assert(absolute_rows(ps.drop_last())[j] == x);
            }
            lemma_absolute_rows_from(ps.drop_last(), x);
            let k = choose|k: int| 0 <= k < ps.drop_last().len() && ps.drop_last()[k] == x;
            assert(ps[k] == x);
        }
    }
}

/// The credential floor holds under any grant: every pattern of every catalog type the blueprint
/// does not let through (and every backstop shape, unless the backstop is lifted) is covered by a
/// floor hole of the compile input, whatever the blueprint grants. Both backends render these
/// holes as denies.
pub proof fn floor_covers_every_denied_pattern(i: InputModel, b: BlueprintModel, c: ResolvedCatalogModel, p: PatternModel)
    requires
        input_of(i, b, c),
        forall|k: int| 0 <= k < denied_of(c, b.allow_credentials).len() ==> pattern_wf(#[trigger] denied_of(c, b.allow_credentials)[k]),
        denied_of(c, b.allow_credentials).contains(p),
    ensures
        exists|j: int| 0 <= j < i.floor.len() && covers_model(#[trigger] i.floor[j], p),
{
    lemma_canonical_covers(i.floor, denied_of(c, b.allow_credentials), p);
}

/// On Linux the floor's absolute patterns become Landlock holes: each is covered by a hole of the
/// compiled policy's subtract set, whatever the blueprint grants.
pub proof fn absolute_floor_patterns_become_holes(r: CompiledPolicy, h: HostModel, b: BlueprintModel, i: InputModel, c: ResolvedCatalogModel, p: PatternModel)
    requires
        compiled_of(r, h, b, i, c),
        input_of(i, b, c),
        forall|k: int| 0 <= k < b.fs.subtract.len() ==> pattern_wf(#[trigger] b.fs.subtract[k]),
        forall|k: int| 0 <= k < denied_of(c, b.allow_credentials).len() ==> pattern_wf(#[trigger] denied_of(c, b.allow_credentials)[k]),
        denied_of(c, b.allow_credentials).contains(p),
        !p.any_depth,
    ensures
        match r.confiner {
            ConfinerPolicy::Linux(l) => exists|j: int| 0 <= j < l.subtract@.len() && covers_model(#[trigger] pats_view(l.subtract@)[j], p),
            _ => true,
        },
{
    if let ConfinerPolicy::Linux(l) = r.confiner {
        let denied = denied_of(c, b.allow_credentials);
        floor_covers_every_denied_pattern(i, b, c, p);
        let j = choose|j: int| 0 <= j < i.floor.len() && covers_model(#[trigger] i.floor[j], p);
        let q = i.floor[j];
        assert(!q.any_depth);
        assert(i.floor.contains(q));
        lemma_absolute_rows_keep(i.floor, q);
        let s2 = i.subtract + absolute_rows(i.floor);
        assert forall|k: int| 0 <= k < s2.len() implies pattern_wf(#[trigger] s2[k]) by {
            if k < i.subtract.len() {
                assert(i.subtract.contains(s2[k]));
                let m = choose|m: int| 0 <= m < b.fs.subtract.len() && b.fs.subtract[m] == s2[k];
                assert(pattern_wf(b.fs.subtract[m]));
            } else {
                let x = s2[k];
                assert(absolute_rows(i.floor)[k - i.subtract.len()] == x);
                assert(absolute_rows(i.floor).contains(x));
                lemma_absolute_rows_from(i.floor, x);
                assert(denied.contains(x));
                let m = choose|m: int| 0 <= m < denied.len() && denied[m] == x;
                assert(pattern_wf(denied[m]));
            }
        }
        let a = absolute_rows(i.floor);
        let ka = choose|ka: int| 0 <= ka < a.len() && a[ka] == q;
        assert(s2[i.subtract.len() + ka] == q);
        assert(s2.contains(q));
        let sv = pats_view(l.subtract@);
        lemma_canonical_covers(sv, s2, q);
        let t = choose|t: int| 0 <= t < sv.len() && covers_model(#[trigger] sv[t], q);
        crate::path_set::lemma_covers_transitive(sv[t], q, p);
    }
}

} // verus!
