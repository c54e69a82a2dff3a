//! The compiler's output: symbolic policy objects the confiners and the gateway later execute,
//! and the fidelity report -- the honesty ledger recording, for every capability it evaluates,
//! whether it is enforced, partial, or unenforceable on the host. The Linux policy carries path
//! patterns and a seccomp plan, not expanded Landlock rules; expansion happens at enforce time,
//! which keeps compilation pure and deterministic.

use vstd::prelude::*;
use crate::blueprint::{McpPolicy, ReadMode};
use crate::detect::HostProfile;
use crate::names::{strs_view, NameMap};
use crate::path::{PathPattern, PatternModel};
use crate::path_set::pats_view;

verus! {

/// The capabilities the report evaluates, in report order.
#[derive(Clone, Copy, Debug, PartialEq, Eq, Structural)]
pub enum Capability {
    FsRead,
    FsWrite,
    NetDefaultDeny,
    NetPortTier,
    Exec,
    McpShading,
    CrossDomainSocket,
    /// Whether ungranted paths vanish or merely deny. Never provided; the row documents that.
    FsInvisibility,
    /// The environment posture, applied at spawn by the launcher.
    EnvScrub,
}

pub open spec fn cap_index(c: Capability) -> int {
    match c {
        Capability::FsRead => 0,
        Capability::FsWrite => 1,
        Capability::NetDefaultDeny => 2,
        Capability::NetPortTier => 3,
        Capability::Exec => 4,
        Capability::McpShading => 5,
        Capability::CrossDomainSocket => 6,
        Capability::FsInvisibility => 7,
        Capability::EnvScrub => 8,
    }
}

pub open spec fn cap_at(i: int) -> Capability {
    if i == 0 {
        Capability::FsRead
    } else if i == 1 {
        Capability::FsWrite
    } else if i == 2 {
        Capability::NetDefaultDeny
    } else if i == 3 {
        Capability::NetPortTier
    } else if i == 4 {
        Capability::Exec
    } else if i == 5 {
        Capability::McpShading
    } else if i == 6 {
        Capability::CrossDomainSocket
    } else if i == 7 {
        Capability::FsInvisibility
    } else {
        Capability::EnvScrub
    }
}

impl Capability {
    fn index(self) -> (r: usize)
        ensures
            r == cap_index(self),
            r < 9,
    {
        match self {
            Capability::FsRead => 0,
            Capability::FsWrite => 1,
            Capability::NetDefaultDeny => 2,
            Capability::NetPortTier => 3,
            Capability::Exec => 4,
            Capability::McpShading => 5,
            Capability::CrossDomainSocket => 6,
            Capability::FsInvisibility => 7,
            Capability::EnvScrub => 8,
        }
    }

    pub(crate) fn from_index(i: usize) -> (r: Capability)
        requires
            i < 9,
        ensures
            r == cap_at(i as int),
            cap_index(r) == i,
    {
        if i == 0 {
            Capability::FsRead
        } else if i == 1 {
            Capability::FsWrite
        } else if i == 2 {
            Capability::NetDefaultDeny
        } else if i == 3 {
            Capability::NetPortTier
        } else if i == 4 {
            Capability::Exec
        } else if i == 5 {
            Capability::McpShading
        } else if i == 6 {
            Capability::CrossDomainSocket
        } else if i == 7 {
            Capability::FsInvisibility
        } else {
            Capability::EnvScrub
        }
    }

    /// The capability's key in the serialized report.
    pub fn as_key(&self) -> (r: &'static str)
        ensures
            r@ == cap_key(*self),
    {
        match self {
            Capability::FsRead => "fs-read",
            Capability::FsWrite => "fs-write",
            Capability::NetDefaultDeny => "net-default-deny",
            Capability::NetPortTier => "net-port-tier",
            Capability::Exec => "exec",
            Capability::McpShading => "mcp-shading",
            Capability::CrossDomainSocket => "cross-domain-socket",
            Capability::FsInvisibility => "fs-invisibility",
            Capability::EnvScrub => "env-scrub",
        }
    }
}

pub open spec fn cap_key(c: Capability) -> Seq<char> {
    match c {
        Capability::FsRead => "fs-read"@,
        Capability::FsWrite => "fs-write"@,
        Capability::NetDefaultDeny => "net-default-deny"@,
        Capability::NetPortTier => "net-port-tier"@,
        Capability::Exec => "exec"@,
        Capability::McpShading => "mcp-shading"@,
        Capability::CrossDomainSocket => "cross-domain-socket"@,
        Capability::FsInvisibility => "fs-invisibility"@,
        Capability::EnvScrub => "env-scrub"@,
    }
}

#[derive(Clone, Copy, Debug, PartialEq, Eq, Structural)]
pub enum Backend {
    Landlock,
    Seccomp,
    Seatbelt,
    Gateway,
    /// The spawn-time construction of the confined child (environment rebuild and credential
    /// strip). Not a kernel confiner: its guarantee holds only while Formwork launches the process.
    Launcher,
    /// No backend carries the capability (`none` in the serialized form).
    Unbacked,
}

/// How a denial manifests to the confined process.
#[derive(Clone, Copy, Debug, PartialEq, Eq, Structural)]
pub enum DenialSemantics {
    /// The item is absent, not present-and-flagged (MCP shading, environment).
    Hide,
    /// The operation fails with a natural errno (EACCES/EPERM): the filesystem case.
    Deny,
    NotApplicable,
}

impl View for DenialSemantics {
    type V = DenialSemantics;

    open spec fn view(&self) -> DenialSemantics {
        *self
    }
}

#[derive(Clone, Debug, PartialEq, Eq)]
pub enum Fidelity {
    /// Backed by a real mechanism.
    Enforced { backend: Backend },
    Partial { backend: Backend, reason: String },
    /// This host cannot carry it; the reason is surfaced, never swallowed.
    Unenforceable { reason: String },
}

pub enum FidelityModel {
    Enforced { backend: Backend },
    Partial { backend: Backend, reason: Seq<char> },
    Unenforceable { reason: Seq<char> },
}

impl View for Fidelity {
    type V = FidelityModel;

    open spec fn view(&self) -> FidelityModel {
        match self {
            Fidelity::Enforced { backend } => FidelityModel::Enforced { backend: *backend },
            Fidelity::Partial { backend, reason } => FidelityModel::Partial { backend: *backend, reason: reason@ },
            Fidelity::Unenforceable { reason } => FidelityModel::Unenforceable { reason: reason@ },
        }
    }
}

impl Fidelity {
    pub fn is_enforced(&self) -> (r: bool)
        ensures
            r == (self@ is Enforced),
    {
        match self {
            Fidelity::Enforced { .. } => true,
            _ => false,
        }
    }

    pub fn copy(&self) -> (r: Fidelity)
        ensures
            r@ == self@,
    {
        match self {
            Fidelity::Enforced { backend } => Fidelity::Enforced { backend: *backend },
            Fidelity::Partial { backend, reason } => Fidelity::Partial { backend: *backend, reason: crate::names::copy_string(reason) },
            Fidelity::Unenforceable { reason } => Fidelity::Unenforceable { reason: crate::names::copy_string(reason) },
        }
    }
}

/// One entry per capability, in report order.
#[derive(Debug, PartialEq, Eq)]
pub struct CapabilityMap<T: View> {
    slots: Vec<Option<T>>,
}

impl<T: View> View for CapabilityMap<T> {
    type V = Seq<Option<T::V>>;

    closed spec fn view(&self) -> Seq<Option<T::V>> {
        self.slots@.map_values(|o: Option<T>| match o {
            Some(t) => Some(t@),
            None => None,
        })
    }
}

impl<T: View> CapabilityMap<T> {
    #[verifier::type_invariant]
    spec fn nine_slots(self) -> bool {
        self.slots.len() == 9
    }

    pub fn new() -> (r: CapabilityMap<T>)
        ensures
            r@.len() == 9,
            forall|i: int| 0 <= i < 9 ==> #[trigger] r@[i] is None,
    {
        let mut slots: Vec<Option<T>> = Vec::new();
        let mut i: usize = 0;
        while i < 9
            invariant
                i <= 9,
                slots.len() == i,
                forall|j: int| 0 <= j < i ==> #[trigger] slots@[j] is None,
            decreases 9 - i,
        {
            slots.push(None);
            i = i + 1;
        }
        CapabilityMap { slots }
    }

    /// The entry for `c`, replacing what was there.
    pub fn insert(&mut self, c: Capability, value: T)
        ensures
            final(self)@ == old(self)@.update(cap_index(c), Some(value@)),
    {
        proof {
            use_type_invariant(&*self);
        }
        let i = c.index();
        let mut s: Vec<Option<T>> = CapabilityMap::<T>::new().slots;
        std::mem::swap(&mut s, &mut self.slots);
        s.set(i, Some(value));
        self.slots = s;
        assert(self@ =~= old(self)@.update(cap_index(c), Some(value@)));
    }

    pub fn get(&self, c: Capability) -> (r: Option<&T>)
        ensures
            self@.len() == 9,
            match r {
                Some(t) => self@[cap_index(c)] == Some(t@),
                None => self@[cap_index(c)] is None,
            },
    {
        proof {
            use_type_invariant(self);
        }
        match &self.slots[c.index()] {
            Some(t) => Some(t),
            None => None,
        }
    }

    pub fn contains_key(&self, c: Capability) -> (r: bool)
        ensures
            r == (self@[cap_index(c)] is Some),
    {
        self.get(c).is_some()
    }
}

impl<T: View + Clone> Clone for CapabilityMap<T> {
    fn clone(&self) -> (r: Self) {
        proof {
            use_type_invariant(self);
        }
        let mut slots: Vec<Option<T>> = Vec::new();
        let mut i: usize = 0;
        while i < self.slots.len()
            invariant
                i <= self.slots.len(),
                slots.len() == i,
            decreases self.slots.len() - i,
        {
            let e = match &self.slots[i] {
                Some(t) => Some(t.clone()),
                None => None,
            };
            slots.push(e);
            i = i + 1;
        }
        CapabilityMap { slots }
    }
}

/// One catalog type's two arms. An absent kind is absent: nothing is claimed for a location kind
/// the type does not have or an arm that is not applied.
#[derive(Clone, Debug, PartialEq, Eq)]
pub struct CredentialFidelity {
    /// Path locations: the OS sandbox.
    pub path: Option<Fidelity>,
    /// Variable locations: the launcher strip.
    pub env: Option<Fidelity>,
}

impl View for CredentialFidelity {
    type V = (Option<FidelityModel>, Option<FidelityModel>);

    open spec fn view(&self) -> (Option<FidelityModel>, Option<FidelityModel>) {
        (opt_fidelity(self.path), opt_fidelity(self.env))
    }
}

pub open spec fn opt_fidelity(o: Option<Fidelity>) -> Option<FidelityModel> {
    match o {
        Some(f) => Some(f@),
        None => None,
    }
}

/// Per-credential-type honesty: which arm carries each location kind of every type still
/// enforced, plus the visible list of deliberate exclusions.
#[derive(Clone, Debug, PartialEq, Eq)]
pub struct CredentialReport {
    pub catalog_version: u32,
    /// Types deliberately let through, itemized so the lift is auditable.
    pub allowed: Vec<String>,
    pub per_type: NameMap<CredentialFidelity>,
    /// The backstop's path fidelity; `None` when lifted by name.
    pub backstop: Option<Fidelity>,
    /// Stated with every report: the environment arm holds only while Formwork launches the
    /// process.
    pub launcher_contingency: String,
}

/// The full per-capability report plus the host it was compiled against.
#[derive(Clone, Debug, PartialEq, Eq)]
pub struct FidelityReport {
    pub host: HostProfile,
    pub per_capability: CapabilityMap<Fidelity>,
    pub semantics: CapabilityMap<DenialSemantics>,
    pub credentials: CredentialReport,
}

impl FidelityReport {
    /// The enforced capabilities with their backends, in report order.
    pub fn enforced_capabilities(&self) -> (r: Vec<(Capability, Backend)>)
        ensures
            r@ == enforced_rows(self.per_capability@, 9),
    {
        let mut out: Vec<(Capability, Backend)> = Vec::new();
        let mut i: usize = 0;
        let _ = self.per_capability.get(Capability::FsRead);
        while i < 9
            invariant
                i <= 9,
                self.per_capability@.len() == 9,
                out@ == enforced_rows(self.per_capability@, i as int),
            decreases 9 - i,
        {
            let c = Capability::from_index(i);
            match self.per_capability.get(c) {
                Some(Fidelity::Enforced { backend }) => {
                    out.push((c, *backend));
                },
                _ => {},
            }
            i = i + 1;
        }
        out
    }

    /// Net is never left silently open: enforced or partial, never bare-unenforceable.
    pub fn net_is_fail_closed(&self) -> (r: bool)
        ensures
            r == match self.per_capability@[cap_index(Capability::NetDefaultDeny)] {
                Some(f) => f is Enforced || f is Partial,
                None => false,
            },
    {
        match self.per_capability.get(Capability::NetDefaultDeny) {
            Some(f) => f.is_enforced() || match f {
                Fidelity::Partial { .. } => true,
                _ => false,
            },
            None => false,
        }
    }
}

/// The enforced rows among the first `n`, in order.
pub open spec fn enforced_rows(t: Seq<Option<FidelityModel>>, n: int) -> Seq<(Capability, Backend)>
    decreases n,
{
    if n <= 0 {
        Seq::empty()
    } else {
        let rest = enforced_rows(t, n - 1);
        match t[n - 1] {
            Some(FidelityModel::Enforced { backend }) => rest.push((cap_at(n - 1), backend)),
            _ => rest,
        }
    }
}

/// The enforced list names exactly the rows that are enforced, each with its backend, once, in
/// report order.
pub proof fn enforced_rows_are_exactly_the_enforced(t: Seq<Option<FidelityModel>>, n: int)
    requires
        0 <= n <= 9,
    ensures
        forall|c: Capability, b: Backend| #[trigger] enforced_rows(t, n).contains((c, b))
            <==> cap_index(c) < n && t[cap_index(c)] == Some(FidelityModel::Enforced { backend: b }),
        forall|i: int, j: int| 0 <= i < j < enforced_rows(t, n).len()
            ==> cap_index(#[trigger] enforced_rows(t, n)[i].0) < cap_index(#[trigger] enforced_rows(t, n)[j].0),
        forall|i: int| 0 <= i < enforced_rows(t, n).len() ==> cap_index(#[trigger] enforced_rows(t, n)[i].0) < n,
    decreases n,
{
    if n > 0 {
        enforced_rows_are_exactly_the_enforced(t, n - 1);
        let rest = enforced_rows(t, n - 1);
        let r = enforced_rows(t, n);
        let k = cap_at(n - 1);
        assert(cap_index(k) == n - 1);
        assert forall|c: Capability, b: Backend| #[trigger] r.contains((c, b))
            <==> cap_index(c) < n && t[cap_index(c)] == Some(FidelityModel::Enforced { backend: b }) by {
            if r.contains((c, b)) {
                let q = choose|q: int| 0 <= q < r.len() && r[q] == (c, b);
                if q < rest.len() {
                    assert(r[q] == rest[q]);
                    assert(rest.contains((c, b)));
                }
            }
            if cap_index(c) < n && t[cap_index(c)] == Some(FidelityModel::Enforced { backend: b }) {
                if cap_index(c) < n - 1 {
                    assert(rest.contains((c, b)));
                    let q = choose|q: int| 0 <= q < rest.len() && rest[q] == (c, b);
                    assert(r[q] == rest[q]);
                } else {
                    assert(c == k);
                    assert(r[r.len() - 1] == (c, b));
                }
            }
        }
        assert forall|i: int| 0 <= i < r.len() implies cap_index(#[trigger] r[i].0) < n by {
            if i < rest.len() {
                assert(r[i] == rest[i]);
            }
        }
        assert forall|i: int, j: int| 0 <= i < j < r.len() implies cap_index(#[trigger] r[i].0) < cap_index(#[trigger] r[j].0) by {
            assert(r[i] == rest[i]);
            if j < rest.len() {
                assert(r[j] == rest[j]);
            }
        }
    }
}

#[derive(Clone, Copy, Debug, PartialEq, Eq, Structural)]
pub enum SocketFamily {
    Inet,
    Inet6,
    Packet,
    /// Netlink except the route family toolchains need; the confiner encodes the exact predicate.
    NetlinkNonRoute,
}

/// The seccomp baseline: deny-list shaped for transparency -- it blocks confinement-shedding and
/// escalation surfaces while letting normal toolchains through.
#[derive(Clone, Debug, PartialEq, Eq)]
pub struct SeccompPlan {
    /// Sorted, for deterministic output.
    pub deny_syscalls: Vec<String>,
    pub deny_socket_families: Vec<SocketFamily>,
    /// The port tier: deny inet/inet6 datagram and raw sockets while allowing streams.
    pub deny_inet_dgram_raw: bool,
    /// Deny new user namespaces, which would hand back capabilities the baseline removes.
    pub restrict_userns: bool,
    /// Required for an unprivileged filter.
    pub set_no_new_privs: bool,
}

#[derive(Clone, Debug, PartialEq, Eq)]
pub enum LinuxNetPlan {
    /// Full inet default-deny: inet socket creation blocked via seccomp -- TCP, UDP, and raw.
    /// Inherited connected descriptors still work; that is the seam.
    SeccompDenyInet,
    /// The port tier: Landlock allows TCP connect to the listed ports and seccomp denies inet
    /// datagram and raw sockets, so the TCP-only grant cannot be sidestepped.
    LandlockTcpSeccompDgramRawDeny { ports: Vec<u16> },
}

impl LinuxNetPlan {
    /// The TCP ports Landlock allows, under the port tier.
    pub fn landlock_tcp_ports(&self) -> (r: Option<&[u16]>)
        ensures
            match (r, self) {
                (Some(s), LinuxNetPlan::LandlockTcpSeccompDgramRawDeny { ports }) => s@ == ports@,
                (None, LinuxNetPlan::SeccompDenyInet) => true,
                _ => false,
            },
    {
        match self {
            LinuxNetPlan::SeccompDenyInet => None,
            LinuxNetPlan::LandlockTcpSeccompDgramRawDeny { ports } => Some(ports.as_slice()),
        }
    }
}

/// Off unless the blueprint asks.
#[derive(Clone, Debug, PartialEq, Eq)]
pub enum ExecPlan {
    Unrestricted,
    Allowlist { paths: Vec<PathPattern> },
}

#[derive(Clone, Debug, PartialEq, Eq)]
pub struct LinuxPolicy {
    pub landlock_abi_target: Option<u32>,
    pub read_mode: ReadMode,
    /// Write grants already folded in.
    pub reads: Vec<PathPattern>,
    pub writes: Vec<PathPattern>,
    /// Read and modify existing files, create none.
    pub writes_no_create: Vec<PathPattern>,
    pub subtract: Vec<PathPattern>,
    /// Write-denied but readable tamper vectors.
    pub write_subtract: Vec<PathPattern>,
    /// The exec allow-list plan (`exec` in the serialized form).
    pub exec_plan: ExecPlan,
    pub net: LinuxNetPlan,
    pub seccomp: SeccompPlan,
    /// Always true: `NO_NEW_PRIVS` is the anti-shedding floor.
    pub no_new_privs: bool,
}

#[derive(Clone, Debug, PartialEq, Eq)]
pub struct MacosPolicy {
    pub sbpl: String,
}

/// Chosen by the host's OS, so a synthetic Linux profile on a Mac yields `Linux(..)`: the basis of
/// cross-platform dry runs.
#[derive(Clone, Debug, PartialEq, Eq)]
pub enum ConfinerPolicy {
    Linux(Box<LinuxPolicy>),
    Macos(MacosPolicy),
    /// No usable confiner on this host: filesystem scope and net default-deny are both reported
    /// unenforceable, never silently assumed.
    Unavailable { reason: String },
}

/// What the gateway enforces: per-server MCP shading plus an informational mirror of the direct
/// TCP port tier, so a caller can see the full egress surface.
#[derive(Clone, Debug, PartialEq, Eq)]
pub struct GatewayPolicy {
    pub servers: NameMap<McpPolicy>,
    pub direct_tcp_ports: Vec<u16>,
}

#[derive(Clone, Debug, PartialEq, Eq)]
pub struct CompiledPolicy {
    pub confiner: ConfinerPolicy,
    pub gateway: GatewayPolicy,
    pub report: FidelityReport,
}

} // verus!
