//! Human renderings of the observability surfaces: the host summary, per-path verdicts, the
//! remedy under a credential-floor denial, and the fidelity report at a glance. The machine door
//! (compiled policy and report as JSON) is separate; these are prose for a person at a terminal,
//! worded for "what can I do about it".

use vstd::prelude::*;
use crate::detect::{HostModel, HostProfile, Os};
use crate::names::{map_keys, strs_view, NameMap};
use crate::policy::{cap_at, cap_key, Backend, Capability, CredentialFidelity, Fidelity, FidelityModel, FidelityReport};
use crate::provenance::{Explanation, RuleSource, SourceModel, Verdict, VerdictModel};
use crate::text::{chars_of, decimal, push_char, push_decimal, push_str};

verus! {

/// One line answering "will this machine enforce, and can `learn` observe?".
pub open spec fn host_summary_text(h: HostModel, strace_on_path: bool) -> Seq<char> {
    match h.os {
        Os::MacOs => "macOS ("@ + h.os_version + ") -- Seatbelt: kernel enforcement ready; `learn` denial feed: unified log"@,
        Os::Linux => match h.landlock_abi {
            Some(abi) => "Linux "@ + h.os_version + " -- Landlock ABI v"@ + decimal(abi as nat)
                + " + seccomp: kernel enforcement ready; `learn` denial feed: "@ + if strace_on_path {
                "ptrace (strace)"@
            } else {
                "install strace to enable"@
            },
            None => "Linux "@ + h.os_version + " -- no Landlock (kernel 5.13+ needed)"@ + (if h.seccomp {
                ", seccomp only"@
            } else {
                ", no seccomp"@
            }) + ": fs enforcement unavailable; compile/dry-run still work"@,
        },
    }
}

/// `strace_on_path` is the caller's answer to whether the Linux denial feed's tool is installed.
pub fn host_summary(profile: &HostProfile, strace_on_path: bool) -> (r: String)
    ensures
        r@ == host_summary_text(profile@, strace_on_path),
{
    let mut out = String::new();
    match profile.os {
        Os::MacOs => {
            push_str(&mut out, "macOS (");
            push_str(&mut out, profile.os_version.as_str());
            push_str(&mut out, ") -- Seatbelt: kernel enforcement ready; `learn` denial feed: unified log");
        },
        Os::Linux => match profile.landlock_abi {
            Some(abi) => {
                push_str(&mut out, "Linux ");
                push_str(&mut out, profile.os_version.as_str());
                push_str(&mut out, " -- Landlock ABI v");
                push_decimal(&mut out, abi as u64);
                push_str(&mut out, " + seccomp: kernel enforcement ready; `learn` denial feed: ");
                if strace_on_path {
                    push_str(&mut out, "ptrace (strace)");
                } else {
                    push_str(&mut out, "install strace to enable");
                }
            },
            None => {
                push_str(&mut out, "Linux ");
                push_str(&mut out, profile.os_version.as_str());
                push_str(&mut out, " -- no Landlock (kernel 5.13+ needed)");
                if profile.seccomp {
                    push_str(&mut out, ", seccomp only");
                } else {
                    push_str(&mut out, ", no seccomp");
                }
                push_str(&mut out, ": fs enforcement unavailable; compile/dry-run still work");
            },
        },
    }
    out
}

pub open spec fn source_text(s: SourceModel) -> Seq<char> {
    match s {
        SourceModel::BuiltIn => "built-in"@,
        SourceModel::Profile(n) => "profile "@ + n,
        SourceModel::File(n) => "blueprint "@ + n,
        SourceModel::Cli => "cli override"@,
        SourceModel::Discovered(n) => "discovered layer "@ + n,
    }
}

pub open spec fn verdict_text(v: VerdictModel) -> Seq<char> {
    match v {
        VerdictModel::Granted { rule, source } => "granted by "@ + rule + " ("@ + source_text(source) + ")"@,
        VerdictModel::Denied { rule, source } => "denied by "@ + rule + " ("@ + source_text(source) + ")"@,
        VerdictModel::Ambient => "allowed by default (no rule names it)"@,
        VerdictModel::Hidden => "not granted (nothing reaches it in this policy)"@,
    }
}

fn push_source(out: &mut String, s: &RuleSource)
    ensures
        final(out)@ == old(out)@ + source_text(s@),
{
    match s {
        RuleSource::BuiltIn => push_str(out, "built-in"),
        RuleSource::Profile(n) => {
            push_str(out, "profile ");
            push_str(out, n.as_str());
        },
        RuleSource::File(n) => {
            push_str(out, "blueprint ");
            push_str(out, n.as_str());
        },
        RuleSource::Cli => push_str(out, "cli override"),
        RuleSource::Discovered(n) => {
            push_str(out, "discovered layer ");
            push_str(out, n.as_str());
        },
    }
}

fn push_verdict(out: &mut String, v: &Verdict)
    ensures
        final(out)@ == old(out)@ + verdict_text(v@),
{
    let ghost start = out@;
    match v {
        Verdict::Granted { rule, source } => {
            push_str(out, "granted by ");
            push_str(out, rule.as_str());
            push_str(out, " (");
            push_source(out, source);
            push_str(out, ")");
        },
        Verdict::Denied { rule, source } => {
            push_str(out, "denied by ");
            push_str(out, rule.as_str());
            push_str(out, " (");
            push_source(out, source);
            push_str(out, ")");
        },
        Verdict::Ambient => push_str(out, "allowed by default (no rule names it)"),
        Verdict::Hidden => push_str(out, "not granted (nothing reaches it in this policy)"),
    }
    assert(out@ =~= start + verdict_text(v@));
}

pub open spec fn explanation_text(path: Seq<char>, read: VerdictModel, write: VerdictModel, exec: VerdictModel) -> Seq<char> {
    path + "\n  read:  "@ + verdict_text(read) + "\n  write: "@ + verdict_text(write) + "\n  exec:  "@
        + verdict_text(exec) + "\n"@
}

/// One path's three verdicts, indented under the path.
pub fn explanation(e: &Explanation) -> (r: String)
    ensures
        r@ == explanation_text(e.path@, e.read@, e.write@, e.execute@),
{
    let mut out = String::new();
    push_str(&mut out, e.path.as_str());
    push_str(&mut out, "\n  read:  ");
    push_verdict(&mut out, &e.read);
    push_str(&mut out, "\n  write: ");
    push_verdict(&mut out, &e.write);
    push_str(&mut out, "\n  exec:  ");
    push_verdict(&mut out, &e.execute);
    push_str(&mut out, "\n");
    out
}

pub open spec fn floor_remedy_text(floor_type: Seq<char>, shape: Option<Seq<char>>) -> Seq<char> {
    if floor_type == "backstop"@ {
        "  hint: credential backstop (shape "@ + (match shape {
            Some(s) => s,
            None => "**/<name>"@,
        }) + ") -- fires at any depth, even inside a granted directory. Lift with allow-credentials = [\"backstop\"] (coarse: un-denies every backstop shape everywhere; prefer narrowing a real type when one fits).\n"@
    } else {
        "  hint: credential floor (type "@ + floor_type + ") -- lift with allow-credentials = [\""@ + floor_type
            + "\"].\n"@
    }
}

/// The remedy under a credential-floor denial: the `allow-credentials` entry that lifts it. The
/// backstop also names its shape, since it fires even inside a granted directory.
pub fn floor_remedy(floor_type: &str, shape: Option<&str>) -> (r: String)
    ensures
        r@ == floor_remedy_text(floor_type@, match shape {
            Some(s) => Some(s@),
            None => None,
        }),
{
    let mut out = String::new();
    if crate::names::str_equal(floor_type, "backstop") {
        push_str(&mut out, "  hint: credential backstop (shape ");
        match shape {
            Some(s) => push_str(&mut out, s),
            None => push_str(&mut out, "**/<name>"),
        }
        push_str(&mut out, ") -- fires at any depth, even inside a granted directory. Lift with allow-credentials = [\"backstop\"] (coarse: un-denies every backstop shape everywhere; prefer narrowing a real type when one fits).\n");
    } else {
        push_str(&mut out, "  hint: credential floor (type ");
        push_str(&mut out, floor_type);
        push_str(&mut out, ") -- lift with allow-credentials = [\"");
        push_str(&mut out, floor_type);
        push_str(&mut out, "\"].\n");
    }
    out
}

// ---------------------------------------------------------------------------------------------
// The fidelity report at a glance

pub open spec fn backend_text(b: Backend) -> Seq<char> {
    match b {
        Backend::Landlock => "landlock"@,
        Backend::Seccomp => "seccomp"@,
        Backend::Seatbelt => "seatbelt"@,
        Backend::Gateway => "gateway"@,
        Backend::Launcher => "launcher"@,
        Backend::Unbacked => "none"@,
    }
}

pub open spec fn fidelity_text(f: FidelityModel) -> Seq<char> {
    match f {
        FidelityModel::Enforced { backend } => "enforced ("@ + backend_text(backend) + ")"@,
        FidelityModel::Partial { backend, reason } => "partial ("@ + backend_text(backend) + ") -- "@ + reason,
        FidelityModel::Unenforceable { reason } => "unavailable -- "@ + reason,
    }
}

/// The widest key among the first `n` capabilities the report has a row for.
pub open spec fn key_width(t: Seq<Option<FidelityModel>>, n: int) -> nat
    decreases n,
{
    if n <= 0 {
        0
    } else {
        let w = key_width(t, n - 1);
        if t[n - 1] is Some && cap_key(cap_at(n - 1)).len() > w {
            cap_key(cap_at(n - 1)).len()
        } else {
            w
        }
    }
}

/// `s` left-aligned in a field of `w`.
pub open spec fn pad_right(s: Seq<char>, w: nat) -> Seq<char> {
    if s.len() >= w {
        s
    } else {
        s + Seq::new((w - s.len()) as nat, |i: int| ' ')
    }
}

/// The rows among the first `n` capabilities, keys padded to `w`.
pub open spec fn capability_lines(t: Seq<Option<FidelityModel>>, n: int, w: nat) -> Seq<char>
    decreases n,
{
    if n <= 0 {
        Seq::empty()
    } else {
        capability_lines(t, n - 1, w) + match t[n - 1] {
            Some(f) => "  "@ + pad_right(cap_key(cap_at(n - 1)), w) + "  "@ + fidelity_text(f) + "\n"@,
            None => Seq::empty(),
        }
    }
}

/// How many credential types carry a path row (`path`) or an env row (`!path`).
pub open spec fn arm_count(rows: Seq<(Seq<char>, (Option<FidelityModel>, Option<FidelityModel>))>, path: bool) -> nat
    decreases rows.len(),
{
    if rows.len() == 0 {
        0
    } else {
        arm_count(rows.drop_last(), path) + if (if path { rows.last().1.0 is Some } else { rows.last().1.1 is Some }) {
            1nat
        } else {
            0nat
        }
    }
}

/// Names joined by `, `.
pub open spec fn joined(names: Seq<Seq<char>>) -> Seq<char>
    decreases names.len(),
{
    if names.len() == 0 {
        Seq::empty()
    } else if names.len() == 1 {
        names[0]
    } else {
        joined(names.drop_last()) + ", "@ + names.last()
    }
}

pub open spec fn plural(n: nat) -> Seq<char> {
    if n == 1 {
        ""@
    } else {
        "s"@
    }
}

pub open spec fn credential_line(version: u32, path_types: nat, env_types: nat, allowed: Seq<Seq<char>>) -> Seq<char> {
    "credential floor: catalog v"@ + decimal(version as nat) + " -- "@ + decimal(path_types) + " path type"@
        + plural(path_types) + " denied, "@ + decimal(env_types) + " env type"@ + plural(env_types)
        + " stripped; allowed through: "@ + (if allowed.len() == 0 {
        "(none)"@
    } else {
        joined(allowed)
    }) + "\n"@
}

pub open spec fn backstop_line() -> Seq<char> {
    "backstop: filename shapes (credentials, id_rsa, id_ed25519, .netrc, …) denied at any depth, even inside granted directories; lift with allow-credentials = [\"backstop\"]\n"@
}

pub open spec fn report_summary_text(
    caps: Seq<Option<FidelityModel>>,
    version: u32,
    allowed: Seq<Seq<char>>,
    per_type: Seq<(Seq<char>, (Option<FidelityModel>, Option<FidelityModel>))>,
    backstop: bool,
    contingency: Seq<char>,
) -> Seq<char> {
    "capabilities:\n"@ + capability_lines(caps, 9, key_width(caps, 9)) + credential_line(
        version,
        arm_count(per_type, true),
        arm_count(per_type, false),
        allowed,
    ) + (if backstop {
        backstop_line()
    } else {
        Seq::empty()
    }) + "note: "@ + contingency + "\n"@
}

fn push_backend(out: &mut String, b: Backend)
    ensures
        final(out)@ == old(out)@ + backend_text(b),
{
    match b {
        Backend::Landlock => push_str(out, "landlock"),
        Backend::Seccomp => push_str(out, "seccomp"),
        Backend::Seatbelt => push_str(out, "seatbelt"),
        Backend::Gateway => push_str(out, "gateway"),
        Backend::Launcher => push_str(out, "launcher"),
        Backend::Unbacked => push_str(out, "none"),
    }
}

fn push_fidelity(out: &mut String, f: &Fidelity)
    ensures
        final(out)@ == old(out)@ + fidelity_text(f@),
{
    let ghost start = out@;
    match f {
        Fidelity::Enforced { backend } => {
            push_str(out, "enforced (");
            push_backend(out, *backend);
            push_str(out, ")");
        },
        Fidelity::Partial { backend, reason } => {
            push_str(out, "partial (");
            push_backend(out, *backend);
            push_str(out, ") -- ");
            push_str(out, reason.as_str());
        },
        Fidelity::Unenforceable { reason } => {
            push_str(out, "unavailable -- ");
            push_str(out, reason.as_str());
        },
    }
    assert(out@ =~= start + fidelity_text(f@));
}

fn push_padded(out: &mut String, s: &str, w: usize)
    ensures
        final(out)@ == old(out)@ + pad_right(s@, w as nat),
{
    let ghost start = out@;
    push_str(out, s);
    let n = chars_of(s).len();
    if n < w {
        let mut k: usize = n;
        while k < w
            invariant
                n <= k <= w,
                n == s@.len(),
                out@ == start + s@ + Seq::new((k - n) as nat, |i: int| ' '),
            decreases w - k,
        {
            push_char(out, ' ');
            k = k + 1;
            assert(out@ =~= start + s@ + Seq::new((k - n) as nat, |i: int| ' '));
        }
    }
    assert(out@ =~= start + pad_right(s@, w as nat));
}

fn push_joined(out: &mut String, names: &Vec<String>)
    ensures
        final(out)@ == old(out)@ + joined(strs_view(names@)),
{
    let ghost start = out@;
    let ghost nv = strs_view(names@);
    let mut i: usize = 0;
    while i < names.len()
        invariant
            nv == strs_view(names@),
            i <= names.len(),
            out@ == start + joined(nv.take(i as int)),
        decreases names.len() - i,
    {
        assert(nv.take(i + 1).drop_last() =~= nv.take(i as int));
        assert(nv.take(i + 1).last() == nv[i as int]);
        if i > 0 {
            push_str(out, ", ");
        }
        push_str(out, names[i].as_str());
        proof {
            if i == 0 {
                assert(nv.take(1)[0] == nv[0]);
            }
        }
        i = i + 1;
        assert(out@ =~= start + joined(nv.take(i as int)));
    }
    assert(nv.take(names.len() as int) =~= nv);
}

fn count_arms(per_type: &NameMap<CredentialFidelity>, path: bool) -> (r: usize)
    ensures
        r == arm_count(per_type@, path),
{
    let n = per_type.len();
    let ghost rows = per_type@;
    let mut c: usize = 0;
    let mut i: usize = 0;
    while i < n
        invariant
            n == rows.len(),
            rows == per_type@,
            i <= n,
            c <= i,
            c == arm_count(rows.take(i as int), path),
        decreases n - i,
    {
        assert(rows.take(i + 1).drop_last() =~= rows.take(i as int));
        assert(rows.take(i + 1).last() == rows[i as int]);
        let f = per_type.value(i);
        let has = if path { f.path.is_some() } else { f.env.is_some() };
        if has {
            c = c + 1;
        }
        i = i + 1;
    }
    assert(rows.take(n as int) =~= rows);
    c
}

fn capability_width(pc: &crate::policy::CapabilityMap<Fidelity>) -> (r: usize)
    ensures
        r == key_width(pc@, 9),
{
    let ghost caps = pc@;
    let mut width: usize = 0;
    let mut i: usize = 0;
    let _ = pc.get(Capability::FsRead);
    while i < 9
        invariant
            i <= 9,
            caps == pc@,
            caps.len() == 9,
            width == key_width(caps, i as int),
        decreases 9 - i,
    {
        let c = Capability::from_index(i);
        if pc.get(c).is_some() {
            let n = chars_of(c.as_key()).len();
            if n > width {
                width = n;
            }
        }
        i = i + 1;
    }
    width
}

fn push_capability_lines(out: &mut String, pc: &crate::policy::CapabilityMap<Fidelity>, width: usize)
    ensures
        final(out)@ == old(out)@ + capability_lines(pc@, 9, width as nat),
{
    let ghost caps = pc@;
    let ghost head = out@;
    let _ = pc.get(Capability::FsRead);
    let mut j: usize = 0;
    while j < 9
        invariant
            j <= 9,
            caps == pc@,
            caps.len() == 9,
            out@ == head + capability_lines(caps, j as int, width as nat),
        decreases 9 - j,
    {
        let c = Capability::from_index(j);
        match pc.get(c) {
            Some(f) => {
                push_str(out, "  ");
                push_padded(out, c.as_key(), width);
                push_str(out, "  ");
                push_fidelity(out, f);
                push_str(out, "\n");
            },
            None => {},
        }
        j = j + 1;
        assert(out@ =~= head + capability_lines(caps, j as int, width as nat));
    }
}

fn push_plural(out: &mut String, n: usize)
    ensures
        final(out)@ == old(out)@ + plural(n as nat),
{
    if n == 1 {
        push_str(out, "");
    } else {
        push_str(out, "s");
    }
}

fn push_credential_line(out: &mut String, creds: &crate::policy::CredentialReport)
    ensures
        final(out)@ == old(out)@ + credential_line(
            creds.catalog_version,
            arm_count(creds.per_type@, true),
            arm_count(creds.per_type@, false),
            strs_view(creds.allowed@),
        ),
{
    let ghost start = out@;
    let path_types = count_arms(&creds.per_type, true);
    let env_types = count_arms(&creds.per_type, false);
    push_str(out, "credential floor: catalog v");
    push_decimal(out, creds.catalog_version as u64);
    push_str(out, " -- ");
    push_decimal(out, path_types as u64);
    push_str(out, " path type");
    push_plural(out, path_types);
    push_str(out, " denied, ");
    push_decimal(out, env_types as u64);
    push_str(out, " env type");
    push_plural(out, env_types);
    push_str(out, " stripped; allowed through: ");
    if creds.allowed.len() == 0 {
        push_str(out, "(none)");
    } else {
        push_joined(out, &creds.allowed);
    }
    push_str(out, "\n");
    assert(out@ =~= start + credential_line(
        creds.catalog_version,
        arm_count(creds.per_type@, true),
        arm_count(creds.per_type@, false),
        strs_view(creds.allowed@),
    ));
}

/// The fidelity report as prose: one row per capability with its honesty, then the credential
/// floor's shape, the backstop's own line when it is in force, and the launcher contingency.
pub fn report_summary(report: &FidelityReport) -> (r: String)
    ensures
        r@ == report_summary_text(
            report.per_capability@,
            report.credentials.catalog_version,
            strs_view(report.credentials.allowed@),
            report.credentials.per_type@,
            report.credentials.backstop is Some,
            report.credentials.launcher_contingency@,
        ),
{
    let mut out = String::new();
    push_str(&mut out, "capabilities:\n");
    let width = capability_width(&report.per_capability);
    push_capability_lines(&mut out, &report.per_capability, width);
    let creds = &report.credentials;
    push_credential_line(&mut out, creds);
    if creds.backstop.is_some() {
        push_str(&mut out, "backstop: filename shapes (credentials, id_rsa, id_ed25519, .netrc, …) denied at any depth, even inside granted directories; lift with allow-credentials = [\"backstop\"]\n");
    }
    push_str(&mut out, "note: ");
    push_str(&mut out, creds.launcher_contingency.as_str());
    push_str(&mut out, "\n");
    out
}

} // verus!
