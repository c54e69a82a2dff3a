//! The confiner's decisions: which mechanism a compiled policy is enforced with, the refusal when
//! the policy was compiled for another platform or no confiner exists, and the Landlock plan --
//! the access classes to govern, the grant roots and the subtract holes that shape them -- that
//! the mechanism then installs in the parent and applies in the child. Landlock is allow-list
//! only, so a hole splits the grant around it: a directory with no hole beneath it is granted
//! whole, a directory a hole lies under is granted entry by entry.

use vstd::prelude::*;
use crate::blueprint::ReadMode;
use crate::path::{comps_prefix, comps_view, render_abs, Comps, PathPattern, PatternModel};
use crate::path_set::pats_view;
use crate::policy::{CompiledPolicy, ConfinerPolicy, ExecPlan, LinuxNetPlan, LinuxPolicy};
use crate::text::push_str;

verus! {

#[verifier::external_type_specification]
#[verifier::external_body]
pub struct ExIoError(std::io::Error);

/// Why confinement could not be configured. Fail-closed: there is never a running-but-unconfined
/// child.
#[derive(Debug)]
pub enum ConfineError {
    /// No usable confiner on this host (the compiler's reason).
    Unavailable(String),
    /// A mechanism the fidelity report promised failed to install.
    MechanismFailed(String),
    /// This platform's backend is not implemented.
    Unimplemented,
    Io(std::io::Error),
}

/// The mechanism a compiled policy is enforced with, for telemetry.
pub open spec fn backend_label_text(c: ConfinerPolicy) -> Seq<char> {
    match c {
        ConfinerPolicy::Macos(_) => "seatbelt"@,
        ConfinerPolicy::Linux(_) => "landlock+seccomp"@,
        ConfinerPolicy::Unavailable { .. } => "none"@,
    }
}

pub fn backend_label(policy: &CompiledPolicy) -> (r: &'static str)
    ensures
        r@ == backend_label_text(policy.confiner),
{
    match policy.confiner {
        ConfinerPolicy::Macos(_) => "seatbelt",
        ConfinerPolicy::Linux(_) => "landlock+seccomp",
        ConfinerPolicy::Unavailable { .. } => "none",
    }
}

pub open spec fn wrong_platform_linux() -> Seq<char> {
    "compiled a macOS policy but running on Linux; recompile against this host"@
}

pub open spec fn wrong_platform_macos() -> Seq<char> {
    "compiled a Linux policy but running on macOS; recompile against this host"@
}

/// The Linux half of a compiled policy, on a Linux host.
pub fn linux_policy(policy: &CompiledPolicy) -> (r: Result<&LinuxPolicy, ConfineError>)
    ensures
        match (r, policy.confiner) {
            (Ok(l), ConfinerPolicy::Linux(p)) => *l == *p,
            (Err(ConfineError::Unavailable(m)), ConfinerPolicy::Unavailable { reason }) => m@ == reason@,
            (Err(ConfineError::MechanismFailed(m)), ConfinerPolicy::Macos(_)) => m@ == wrong_platform_linux(),
            _ => false,
        },
{
    match &policy.confiner {
        ConfinerPolicy::Linux(l) => Ok(&**l),
        ConfinerPolicy::Unavailable { reason } => Err(ConfineError::Unavailable(crate::names::copy_string(reason))),
        ConfinerPolicy::Macos(_) => Err(ConfineError::MechanismFailed(String::from_str(
            "compiled a macOS policy but running on Linux; recompile against this host",
        ))),
    }
}

/// The Seatbelt profile of a compiled policy, on a macOS host; a profile with an interior NUL
/// cannot be handed to `sandbox_init`.
pub fn sbpl_of(policy: &CompiledPolicy) -> (r: Result<String, ConfineError>)
    ensures
        match (r, policy.confiner) {
            (Ok(s), ConfinerPolicy::Macos(m)) => s@ == m.sbpl@ && !m.sbpl@.contains('\0'),
            (Err(ConfineError::MechanismFailed(msg)), ConfinerPolicy::Macos(m)) => m.sbpl@.contains('\0')
                && msg@ == "SBPL profile contained an interior NUL"@,
            (Err(ConfineError::Unavailable(m)), ConfinerPolicy::Unavailable { reason }) => m@ == reason@,
            (Err(ConfineError::MechanismFailed(m)), ConfinerPolicy::Linux(_)) => m@ == wrong_platform_macos(),
            _ => false,
        },
{
    match &policy.confiner {
        ConfinerPolicy::Macos(m) => {
            if has_nul(m.sbpl.as_str()) {
                return Err(ConfineError::MechanismFailed(String::from_str("SBPL profile contained an interior NUL")));
            }
            Ok(crate::names::copy_string(&m.sbpl))
        },
        ConfinerPolicy::Unavailable { reason } => Err(ConfineError::Unavailable(crate::names::copy_string(reason))),
        ConfinerPolicy::Linux(_) => Err(ConfineError::MechanismFailed(String::from_str(
            "compiled a Linux policy but running on macOS; recompile against this host",
        ))),
    }
}

fn has_nul(s: &str) -> (r: bool)
    ensures
        r == s@.contains('\0'),
{
    let v = crate::text::chars_of(s);
    let mut i: usize = 0;
    while i < v.len()
        invariant
            v@ == s@,
            i <= v.len(),
            forall|k: int| 0 <= k < i ==> v@[k] != '\0',
        decreases v.len() - i,
    {
        if v[i] == '\0' {
            assert(s@.contains(s@[i as int]));
            return true;
        }
        i = i + 1;
    }
    false
}

/// Whether the child must set `NO_NEW_PRIVS` before Landlock and seccomp.
pub fn needs_no_new_privs(policy: &LinuxPolicy) -> (r: bool)
    ensures
        r == (policy.no_new_privs || policy.seccomp.set_no_new_privs),
{
    policy.no_new_privs || policy.seccomp.set_no_new_privs
}

// ---------------------------------------------------------------------------------------------
// Subtract holes

/// A concrete (absolute) subtract hole.
#[derive(Clone, Debug, PartialEq, Eq)]
pub struct Hole {
    pub base: Vec<Vec<char>>,
    pub subtree: bool,
}

pub struct HoleModel {
    pub base: Comps,
    pub subtree: bool,
}

impl View for Hole {
    type V = HoleModel;

    open spec fn view(&self) -> HoleModel {
        HoleModel { base: comps_view(self.base@), subtree: self.subtree }
    }
}

pub open spec fn holes_view(v: Seq<Hole>) -> Seq<HoleModel> {
    v.map_values(|h: Hole| h@)
}

/// The hole denies `path` outright: it is the hole, or lies within a subtree hole.
pub open spec fn hole_covers(h: HoleModel, path: Comps) -> bool {
    if h.subtree {
        comps_prefix(h.base, path)
    } else {
        path == h.base
    }
}

/// The hole sits strictly below `dir`, so `dir` must be split rather than granted whole.
pub open spec fn hole_strictly_under(h: HoleModel, dir: Comps) -> bool {
    h.base != dir && comps_prefix(dir, h.base)
}

impl Hole {
    pub fn covers(&self, path: &Vec<Vec<char>>) -> (r: bool)
        ensures
            r == hole_covers(self@, comps_view(path@)),
    {
        if self.subtree {
            crate::path::comps_prefix_exec(&self.base, path)
        } else {
            crate::path::comps_eq(path, &self.base)
        }
    }

    pub fn strictly_under(&self, dir: &Vec<Vec<char>>) -> (r: bool)
        ensures
            r == hole_strictly_under(self@, comps_view(dir@)),
    {
        !crate::path::comps_eq(&self.base, dir) && crate::path::comps_prefix_exec(dir, &self.base)
    }
}

pub open spec fn any_depth_refusal(canonical: Seq<char>) -> Seq<char> {
    "any-depth pattern "@ + canonical
        + " cannot be a rooted Landlock rule; Linux enforcement of `**/` is pending"@
}

/// The holes of a pattern set; an any-depth pattern cannot be a rooted rule and is refused (so
/// nothing is silently missed).
pub open spec fn holes_model(ps: Seq<PatternModel>) -> Result<Seq<HoleModel>, Seq<char>>
    decreases ps.len(),
{
    if ps.len() == 0 {
        Ok(Seq::empty())
    } else {
        match holes_model(ps.drop_last()) {
            Err(e) => Err(e),
            Ok(done) => if ps.last().any_depth {
                Err(any_depth_refusal(crate::path::canonical_model(ps.last())))
            } else {
                Ok(done.push(HoleModel { base: ps.last().base, subtree: ps.last().subtree }))
            },
        }
    }
}

proof fn lemma_holes_error_sticks(ps: Seq<PatternModel>, n: int)
    requires
        0 < n <= ps.len(),
        holes_model(ps.take(n)) is Err,
    ensures
        holes_model(ps) == holes_model(ps.take(n)),
    decreases ps.len() - n,
{
    if n < ps.len() {
        assert(ps.take(n + 1).drop_last() =~= ps.take(n));
        lemma_holes_error_sticks(ps, n + 1);
    } else {
        assert(ps.take(n) =~= ps);
    }
}

pub fn holes_of(patterns: &Vec<PathPattern>) -> (r: Result<Vec<Hole>, ConfineError>)
    ensures
        match r {
            Ok(hs) => holes_model(pats_view(patterns@)) == Ok::<Seq<HoleModel>, Seq<char>>(holes_view(hs@)),
            Err(ConfineError::MechanismFailed(m)) => holes_model(pats_view(patterns@)) == Err::<Seq<HoleModel>, Seq<char>>(m@),
            Err(_) => false,
        },
{
    let ghost pv = pats_view(patterns@);
    let mut out: Vec<Hole> = Vec::new();
    let mut i: usize = 0;
    assert(pv.take(0) =~= Seq::<PatternModel>::empty());
    assert(holes_view(out@) =~= Seq::<HoleModel>::empty());
    while i < patterns.len()
        invariant
            pv == pats_view(patterns@),
            i <= patterns.len(),
            holes_model(pv.take(i as int)) == Ok::<Seq<HoleModel>, Seq<char>>(holes_view(out@)),
        decreases patterns.len() - i,
    {
        assert(pv.take(i + 1).drop_last() =~= pv.take(i as int));
        assert(pv.take(i + 1).last() == pv[i as int]);
        let p = &patterns[i];
        if p.is_any_depth() {
            let mut m = String::new();
            push_str(&mut m, "any-depth pattern ");
            let c = p.canonical();
            push_str(&mut m, c.as_str());
            push_str(&mut m, " cannot be a rooted Landlock rule; Linux enforcement of `**/` is pending");
            proof {
                lemma_holes_error_sticks(pv, i + 1);
            }
            return Err(ConfineError::MechanismFailed(m));
        }
        let ghost before = holes_view(out@);
        out.push(Hole { base: crate::path::clone_comps(p.base_comps()), subtree: p.is_subtree() });
        assert(holes_view(out@) =~= before.push(HoleModel { base: p@.base, subtree: p@.subtree }));
        i = i + 1;
    }
    assert(pv.take(patterns.len() as int) =~= pv);
    Ok(out)
}

/// What subtractive expansion does with a directory: deny it (a hole covers it), grant it whole
/// (no hole below it), or split it into its entries.
#[derive(Clone, Copy, Debug, PartialEq, Eq, Structural)]
pub enum Expansion {
    Deny,
    Whole,
    Split,
}

pub open spec fn expansion_of(holes: Seq<HoleModel>, dir: Comps) -> Expansion {
    if exists|i: int| 0 <= i < holes.len() && hole_covers(#[trigger] holes[i], dir) {
        Expansion::Deny
    } else if exists|i: int| 0 <= i < holes.len() && hole_strictly_under(#[trigger] holes[i], dir) {
        Expansion::Split
    } else {
        Expansion::Whole
    }
}

fn any_covers(holes: &Vec<Hole>, path: &Vec<Vec<char>>) -> (r: bool)
    ensures
        r == exists|i: int| 0 <= i < holes@.len() && hole_covers(#[trigger] holes_view(holes@)[i], comps_view(path@)),
{
    let ghost hv = holes_view(holes@);
    let mut i: usize = 0;
    while i < holes.len()
        invariant
            hv == holes_view(holes@),
            i <= holes.len(),
            forall|k: int| 0 <= k < i ==> !hole_covers(#[trigger] hv[k], comps_view(path@)),
        decreases holes.len() - i,
    {
        if holes[i].covers(path) {
            assert(hole_covers(hv[i as int], comps_view(path@)));
            return true;
        }
        i = i + 1;
    }
    false
}

fn any_strictly_under(holes: &Vec<Hole>, dir: &Vec<Vec<char>>) -> (r: bool)
    ensures
        r == exists|i: int| 0 <= i < holes@.len() && hole_strictly_under(#[trigger] holes_view(holes@)[i], comps_view(dir@)),
{
    let ghost hv = holes_view(holes@);
    let mut i: usize = 0;
    while i < holes.len()
        invariant
            hv == holes_view(holes@),
            i <= holes.len(),
            forall|k: int| 0 <= k < i ==> !hole_strictly_under(#[trigger] hv[k], comps_view(dir@)),
        decreases holes.len() - i,
    {
        if holes[i].strictly_under(dir) {
            assert(hole_strictly_under(hv[i as int], comps_view(dir@)));
            return true;
        }
        i = i + 1;
    }
    false
}

/// Subtractive expansion's decision for one directory (or, under a split directory, one entry:
/// `Deny` skips it, `Split` recurses into it, `Whole` grants it). Fail-closed by construction:
/// anything created under a split directory after expansion is simply ungranted.
pub fn expansion(holes: &Vec<Hole>, dir: &Vec<Vec<char>>) -> (r: Expansion)
    ensures
        r == expansion_of(holes_view(holes@), comps_view(dir@)),
{
    if any_covers(holes, dir) {
        Expansion::Deny
    } else if any_strictly_under(holes, dir) {
        Expansion::Split
    } else {
        Expansion::Whole
    }
}

// ---------------------------------------------------------------------------------------------
// The Landlock plan

/// Closed-mode runtime essentials: without them no `execve` can load the dynamic loader and its
/// libraries.
pub open spec fn read_essentials() -> Seq<Seq<char>> {
    seq!["/usr"@, "/lib"@, "/lib64"@, "/bin"@, "/sbin"@, "/etc/ld.so.cache"@, "/etc/ld.so.preload"@]
}

/// The safe device nodes: readable in closed mode, writable in every mode.
pub open spec fn rw_devices() -> Seq<Seq<char>> {
    seq!["/dev/null"@, "/dev/zero"@, "/dev/urandom"@, "/dev/random"@, "/dev/tty"@]
}

/// What the Landlock half installs: the ABI to enforce at, whether execute is governed (only
/// under an exec allow-list, so the default `execve` stays transparent), whether TCP connect is
/// governed (the port tier, ABI 4+), whether abstract sockets and signals are scoped (ABI 6+),
/// the grant roots and holes, the exec roots, the allowed ports, and whether the child adds its
/// own `/proc/self` after the fork (closed mode).
#[derive(Debug)]
pub struct LandlockPlan {
    pub abi: u32,
    pub govern_exec: bool,
    pub net_governed: bool,
    pub scoped: bool,
    pub read_roots: Vec<String>,
    pub read_holes: Vec<Hole>,
    pub write_roots: Vec<String>,
    pub write_holes: Vec<Hole>,
    pub device_roots: Vec<String>,
    pub exec_roots: Option<Vec<String>>,
    pub ports: Vec<u16>,
    pub grant_proc_self: bool,
}

/// A grant pattern's root: subtree and literal both root at the base.
pub open spec fn roots_of(ps: Seq<PatternModel>) -> Seq<Seq<char>> {
    ps.map_values(|p: PatternModel| render_abs(p.base))
}

fn roots(ps: &Vec<PathPattern>) -> (r: Vec<String>)
    ensures
        crate::names::strs_view(r@) == roots_of(pats_view(ps@)),
{
    let mut out: Vec<String> = Vec::new();
    let mut i: usize = 0;
    while i < ps.len()
        invariant
            i <= ps.len(),
            crate::names::strs_view(out@) == roots_of(pats_view(ps@)).take(i as int),
        decreases ps.len() - i,
    {
        let ghost before = crate::names::strs_view(out@);
        let mut s = String::new();
        crate::path::push_abs(&mut s, ps[i].base_comps());
        assert(s@ == render_abs(ps@[i as int]@.base));
        out.push(s);
        assert(crate::names::strs_view(out@) =~= before.push(render_abs(ps@[i as int]@.base)));
        assert(roots_of(pats_view(ps@)).take(i + 1) =~= roots_of(pats_view(ps@)).take(i as int).push(render_abs(ps@[i as int]@.base)));
        i = i + 1;
    }
    assert(roots_of(pats_view(ps@)).take(ps.len() as int) =~= roots_of(pats_view(ps@)));
    out
}

fn push_literals(out: &mut Vec<String>, items: &[&str])
    ensures
        crate::names::strs_view(final(out)@) == crate::names::strs_view(old(out)@) + items@.map_values(|s: &str| s@),
{
    let ghost start = crate::names::strs_view(out@);
    let mut i: usize = 0;
    while i < items.len()
        invariant
            i <= items.len(),
            crate::names::strs_view(out@) == start + items@.map_values(|s: &str| s@).take(i as int),
        decreases items.len() - i,
    {
        let ghost before = crate::names::strs_view(out@);
        out.push(String::from_str(items[i]));
        assert(crate::names::strs_view(out@) =~= before.push(items@[i as int]@));
        assert(items@.map_values(|s: &str| s@).take(i + 1) =~= items@.map_values(|s: &str| s@).take(i as int).push(items@[i as int]@));
        i = i + 1;
    }
    assert(items@.map_values(|s: &str| s@).take(items.len() as int) =~= items@.map_values(|s: &str| s@));
}

fn essentials() -> (r: Vec<String>)
    ensures
        crate::names::strs_view(r@) == read_essentials(),
{
    let mut out: Vec<String> = Vec::new();
    let items: [&str; 7] = ["/usr", "/lib", "/lib64", "/bin", "/sbin", "/etc/ld.so.cache", "/etc/ld.so.preload"];
    push_literals(&mut out, items.as_slice());
    assert(crate::names::strs_view(out@) =~= read_essentials());
    out
}

fn devices() -> (r: Vec<String>)
    ensures
        crate::names::strs_view(r@) == rw_devices(),
{
    let mut out: Vec<String> = Vec::new();
    let items: [&str; 5] = ["/dev/null", "/dev/zero", "/dev/urandom", "/dev/random", "/dev/tty"];
    push_literals(&mut out, items.as_slice());
    assert(crate::names::strs_view(out@) =~= rw_devices());
    out
}

/// No plan without an ABI target (the seccomp half then carries what the host allows).
/// Otherwise: holes of `subtract` shape the reads; holes of `subtract` and `write_subtract`
/// shape the writes; closed mode adds the runtime essentials and the device nodes to the reads.
pub fn landlock_plan(policy: &LinuxPolicy) -> (r: Result<Option<LandlockPlan>, ConfineError>)
    ensures
        match policy.landlock_abi_target {
            Some(v) if v >= 1 => {
                let read_holes = holes_model(pats_view(policy.subtract@));
                let write_holes = match (holes_model(pats_view(policy.subtract@)), holes_model(pats_view(policy.write_subtract@))) {
                    (Ok(a), Ok(b)) => Ok::<Seq<HoleModel>, Seq<char>>(a + b),
                    (Err(e), _) => Err(e),
                    (Ok(_), Err(e)) => Err(e),
                };
                match r {
                    Ok(Some(plan)) => {
                        &&& plan.abi == v
                        &&& plan.govern_exec == (policy.exec_plan is Allowlist)
                        &&& plan.net_governed == (policy.net is LandlockTcpSeccompDgramRawDeny && v >= 4)
                        &&& plan.scoped == (v >= 6)
                        &&& read_holes == Ok::<Seq<HoleModel>, Seq<char>>(holes_view(plan.read_holes@))
                        &&& write_holes == Ok::<Seq<HoleModel>, Seq<char>>(holes_view(plan.write_holes@))
                        &&& crate::names::strs_view(plan.read_roots@) == roots_of(pats_view(policy.reads@)) + if policy.read_mode
                            == ReadMode::Closed {
                            read_essentials() + rw_devices()
                        } else {
                            Seq::empty()
                        }
                        &&& crate::names::strs_view(plan.write_roots@) == roots_of(pats_view(policy.writes@))
                        &&& crate::names::strs_view(plan.device_roots@) == rw_devices()
                        &&& match (plan.exec_roots, policy.exec_plan) {
                            (Some(e), ExecPlan::Allowlist { paths }) => crate::names::strs_view(e@) == roots_of(pats_view(paths@)),
                            (None, ExecPlan::Unrestricted) => true,
                            _ => false,
                        }
                        &&& plan.ports@ == match policy.net {
                            LinuxNetPlan::LandlockTcpSeccompDgramRawDeny { ports } => if v >= 4 {
                                ports@
                            } else {
                                Seq::empty()
                            },
                            LinuxNetPlan::SeccompDenyInet => Seq::empty(),
                        }
                        &&& plan.grant_proc_self == (policy.read_mode == ReadMode::Closed)
                    },
                    Ok(None) => false,
                    Err(ConfineError::MechanismFailed(m)) => read_holes == Err::<Seq<HoleModel>, Seq<char>>(m@)
                        || (read_holes is Ok && write_holes == Err::<Seq<HoleModel>, Seq<char>>(m@)),
                    Err(_) => false,
                }
            },
            _ => r matches Ok(None),
        },
{
    let v = match policy.landlock_abi_target {
        Some(v) => if v >= 1 {
            v
        } else {
            return Ok(None);
        },
        None => return Ok(None),
    };
    let govern_exec = match policy.exec_plan {
        ExecPlan::Allowlist { .. } => true,
        ExecPlan::Unrestricted => false,
    };
    let net_governed = match policy.net {
        LinuxNetPlan::LandlockTcpSeccompDgramRawDeny { .. } => v >= 4,
        LinuxNetPlan::SeccompDenyInet => false,
    };
    let read_holes = match holes_of(&policy.subtract) {
        Err(e) => return Err(e),
        Ok(h) => h,
    };
    let mut write_holes = match holes_of(&policy.subtract) {
        Err(e) => return Err(e),
        Ok(h) => h,
    };
    let extra = match holes_of(&policy.write_subtract) {
        Err(e) => return Err(e),
        Ok(h) => h,
    };
    let ghost wh0 = holes_view(write_holes@);
    let mut k: usize = 0;
    while k < extra.len()
        invariant
            k <= extra.len(),
            holes_view(write_holes@) == wh0 + holes_view(extra@).take(k as int),
        decreases extra.len() - k,
    {
        let ghost before = holes_view(write_holes@);
        write_holes.push(Hole { base: crate::path::clone_comps(&extra[k].base), subtree: extra[k].subtree });
        assert(holes_view(write_holes@) =~= before.push(holes_view(extra@)[k as int]));
        k = k + 1;
        assert(holes_view(write_holes@) =~= wh0 + holes_view(extra@).take(k as int));
    }
    assert(holes_view(extra@).take(extra.len() as int) =~= holes_view(extra@));
    let mut read_roots = roots(&policy.reads);
    let ghost rr0 = crate::names::strs_view(read_roots@);
    if policy.read_mode == ReadMode::Closed {
        let e = essentials();
        let d = devices();
        crate::names::append_strings(&mut read_roots, &e);
        crate::names::append_strings(&mut read_roots, &d);
        assert(crate::names::strs_view(read_roots@) =~= rr0 + (read_essentials() + rw_devices()));
    } else {
        assert(crate::names::strs_view(read_roots@) =~= rr0 + Seq::<Seq<char>>::empty());
    }
    let exec_roots = match &policy.exec_plan {
        ExecPlan::Allowlist { paths } => Some(roots(paths)),
        ExecPlan::Unrestricted => None,
    };
    let ports: Vec<u16> = match &policy.net {
        LinuxNetPlan::LandlockTcpSeccompDgramRawDeny { ports } => if net_governed {
            ports.clone()
        } else {
            Vec::new()
        },
        LinuxNetPlan::SeccompDenyInet => Vec::new(),
    };
    Ok(
        Some(
            LandlockPlan {
                abi: v,
                govern_exec,
                net_governed,
                scoped: v >= 6,
                read_roots,
                read_holes,
                write_roots: roots(&policy.writes),
                write_holes,
                device_roots: devices(),
                exec_roots,
                ports,
                grant_proc_self: policy.read_mode == ReadMode::Closed,
            },
        ),
    )
}

} // verus!
