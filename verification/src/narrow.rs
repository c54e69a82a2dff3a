//! Monotonic narrowing: `parent.narrow(&requested)` intersects two capability sets into a subset
//! of both. The deny holes -- `subtract` (secrets) and `write_subtract` (tamper vectors) -- grow
//! under narrowing, so they union. The grant intersection is conservative: it may
//! under-approximate but never over-approximate, so the result is always a genuine subset.

use vstd::prelude::*;
use crate::blueprint::{blueprint_canonical_of, env_canonical_of, env_keeps, visibility_permits, exec_canonical_of, mcp_canonical_of, names_canonical_of, net_canonical_of, visibility_canonical_of, Blueprint, BlueprintModel, DiscoveryBlueprint, EnvModel, EnvPosture, EnvScrub, ExecModel, ExecPosture, FsBlueprint, FsModel, Gate, McpModel, McpPolicy, NetModel, NetPosture, ReadMode, ScrubModel, Visibility, VisibilityModel};
use crate::names::{common_names, copy_string, lemma_keys_distinct, lemma_map_get_at, lemma_map_get_none, lemma_map_get_some, map_get, map_keys, names_common, names_sorted, strs_view, NameMap};
use crate::path::{covers_model, PathPattern, PatternModel};
use crate::path_set::{canonical_set_of, canonicalize_set, copy_patterns, pats_view, canonicalize_set_is_idempotent, lemma_covers_reflexive, pattern_wf, lemma_canonical_covers, canonicalize_set_ignores_order};

verus! {

/// Some pattern of `bound` covers `p`.
pub open spec fn covered_by(p: PatternModel, bound: Seq<PatternModel>) -> bool {
    exists|j: int| 0 <= j < bound.len() && covers_model(#[trigger] bound[j], p)
}

/// The members of `subject` that some member of `bound` covers, in order.
pub open spec fn clamp(subject: Seq<PatternModel>, bound: Seq<PatternModel>) -> Seq<PatternModel>
    decreases subject.len(),
{
    if subject.len() == 0 {
        Seq::empty()
    } else if covered_by(subject.last(), bound) {
        clamp(subject.drop_last(), bound).push(subject.last())
    } else {
        clamp(subject.drop_last(), bound)
    }
}

/// The grants both sides admit: each side clamped to the other.
pub open spec fn grants_meet(a: Seq<PatternModel>, b: Seq<PatternModel>) -> Seq<PatternModel> {
    clamp(a, b) + clamp(b, a)
}

fn clamp_to(subject: &Vec<PathPattern>, bound: &Vec<PathPattern>) -> (r: Vec<PathPattern>)
    ensures
        pats_view(r@) == clamp(pats_view(subject@), pats_view(bound@)),
{
    let ghost sv = pats_view(subject@);
    let ghost bv = pats_view(bound@);
    let mut out: Vec<PathPattern> = Vec::new();
    let mut i: usize = 0;
    while i < subject.len()
        invariant
            sv == pats_view(subject@),
            bv == pats_view(bound@),
            i <= subject.len(),
            pats_view(out@) == clamp(sv.take(i as int), bv),
        decreases subject.len() - i,
    {
        let ghost t = sv.take(i + 1);
        assert(t.drop_last() =~= sv.take(i as int));
        assert(t.last() == subject@[i as int]@);
        let mut hit = false;
        let mut j: usize = 0;
        while j < bound.len()
            invariant
                bv == pats_view(bound@),
                i < subject.len(),
                j <= bound.len(),
                hit == exists|m: int| 0 <= m < j && covers_model(#[trigger] bv[m], subject@[i as int]@),
            decreases bound.len() - j,
        {
            if !hit && bound[j].covers(&subject[i]) {
                hit = true;
            }
            assert(bv[j as int] == bound@[j as int]@);
            j = j + 1;
        }
        if hit {
            let ghost before = pats_view(out@);
            out.push(subject[i].copy());
            assert(pats_view(out@) =~= before.push(subject@[i as int]@));
        }
        i = i + 1;
    }
    assert(sv.take(subject.len() as int) =~= sv);
    out
}

/// A subset of both inputs, in canonical form. Public because the compiler clamps the
/// credential-floor exemption to the blueprint's own grant surface with it: an exemption must
/// lift a floor hole, never widen a grant.
pub fn intersect_grants(a: &Vec<PathPattern>, b: &Vec<PathPattern>) -> (r: Vec<PathPattern>)
    ensures
        canonical_set_of(pats_view(r@), grants_meet(pats_view(a@), pats_view(b@))),
{
    let mut out = clamp_to(a, b);
    let mut other = clamp_to(b, a);
    let ghost x = pats_view(out@);
    let ghost y = pats_view(other@);
    out.append(&mut other);
    assert(pats_view(out@) =~= x + y);
    canonicalize_set(out.as_slice())
}

fn union_grants(a: &Vec<PathPattern>, b: &Vec<PathPattern>) -> (r: Vec<PathPattern>)
    ensures
        canonical_set_of(pats_view(r@), pats_view(a@) + pats_view(b@)),
{
    let mut out = copy_patterns(a);
    let mut other = copy_patterns(b);
    out.append(&mut other);
    assert(pats_view(out@) =~= pats_view(a@) + pats_view(b@));
    canonicalize_set(out.as_slice())
}

/// The narrower read mode wins (`Closed` bounds `AmbientMinusSubtract`).
pub open spec fn narrow_read_mode(p: ReadMode, q: ReadMode) -> ReadMode {
    if p == ReadMode::AmbientMinusSubtract && q == ReadMode::AmbientMinusSubtract {
        ReadMode::AmbientMinusSubtract
    } else {
        ReadMode::Closed
    }
}

/// The read grants of the narrowed blueprint, before canonicalization: both ambient, the union;
/// both closed, the intersection; mixed, the closed side's grants bound the result.
pub open spec fn narrow_reads(p: FsModel, q: FsModel) -> Seq<PatternModel> {
    match (p.read_mode, q.read_mode) {
        (ReadMode::AmbientMinusSubtract, ReadMode::AmbientMinusSubtract) => p.reads + q.reads,
        (ReadMode::Closed, ReadMode::Closed) => grants_meet(p.reads, q.reads),
        (ReadMode::Closed, ReadMode::AmbientMinusSubtract) => p.reads,
        (ReadMode::AmbientMinusSubtract, ReadMode::Closed) => q.reads,
    }
}

pub open spec fn fs_narrowed_of(r: FsModel, p: FsModel, q: FsModel) -> bool {
    &&& r.read_mode == narrow_read_mode(p.read_mode, q.read_mode)
    &&& canonical_set_of(r.reads, narrow_reads(p, q))
    &&& canonical_set_of(r.writes, grants_meet(p.writes, q.writes))
    &&& canonical_set_of(r.writes_no_create, grants_meet(p.writes_no_create, q.writes_no_create))
    &&& canonical_set_of(r.subtract, p.subtract + q.subtract)
    &&& canonical_set_of(r.write_subtract, p.write_subtract + q.write_subtract)
}

/// The ports both sides allow, in the parent's order.
pub open spec fn common_ports(a: Seq<u16>, b: Seq<u16>) -> Seq<u16>
    decreases a.len(),
{
    if a.len() == 0 {
        Seq::empty()
    } else if b.contains(a.last()) {
        common_ports(a.drop_last(), b).push(a.last())
    } else {
        common_ports(a.drop_last(), b)
    }
}

pub open spec fn narrow_net(p: NetModel, q: NetModel) -> NetModel {
    match (p, q) {
        (NetModel::Ports(a), NetModel::Ports(b)) => NetModel::Ports(common_ports(a, b)),
        _ => NetModel::Deny,
    }
}

pub open spec fn narrow_exec(p: ExecModel, q: ExecModel) -> ExecModel {
    match (p, q) {
        (ExecModel::Unrestricted, ExecModel::Unrestricted) => ExecModel::Unrestricted,
        (ExecModel::Unrestricted, ExecModel::Allowlist(a)) => ExecModel::Allowlist(a),
        (ExecModel::Allowlist(a), ExecModel::Unrestricted) => ExecModel::Allowlist(a),
        (ExecModel::Allowlist(a), ExecModel::Allowlist(b)) => ExecModel::Allowlist(grants_meet(a, b)),
    }
}

/// `Passthrough` admits everything, so it yields to the other side; allowlists intersect; scrub
/// allows intersect and scrub denies union; a mixed allowlist and scrub keeps only the allowlist
/// names the scrub is guaranteed to keep (its `allow` set).
pub open spec fn narrow_env(p: EnvModel, q: EnvModel) -> EnvModel {
    match (p, q) {
        (EnvModel::Passthrough, o) => o,
        (o, EnvModel::Passthrough) => o,
        (EnvModel::Allowlist(a), EnvModel::Allowlist(b)) => EnvModel::Allowlist(names_common(a, b)),
        (EnvModel::Scrub(a), EnvModel::Scrub(b)) => EnvModel::Scrub(
            ScrubModel { allow: names_common(a.allow, b.allow), deny: a.deny + b.deny },
        ),
        (EnvModel::Allowlist(a), EnvModel::Scrub(s)) => EnvModel::Allowlist(names_common(a, s.allow)),
        (EnvModel::Scrub(s), EnvModel::Allowlist(a)) => EnvModel::Allowlist(names_common(a, s.allow)),
    }
}

pub open spec fn narrow_visibility(p: VisibilityModel, q: VisibilityModel) -> VisibilityModel {
    match (p, q) {
        (VisibilityModel::Deny, _) => VisibilityModel::Deny,
        (_, VisibilityModel::Deny) => VisibilityModel::Deny,
        (VisibilityModel::AllowAll, o) => o,
        (o, VisibilityModel::AllowAll) => o,
        (VisibilityModel::Allow(a), VisibilityModel::Allow(b)) => if names_common(a, b).len() == 0 {
            VisibilityModel::Deny
        } else {
            VisibilityModel::Allow(names_common(a, b))
        },
    }
}

pub open spec fn narrow_gate(p: Gate, q: Gate) -> Gate {
    if p == Gate::Allow && q == Gate::Allow {
        Gate::Allow
    } else {
        Gate::Deny
    }
}

pub open spec fn narrow_policy(p: McpModel, q: McpModel) -> McpModel {
    McpModel {
        tools: narrow_visibility(p.tools, q.tools),
        resources: narrow_visibility(p.resources, q.resources),
        prompts: narrow_visibility(p.prompts, q.prompts),
        sampling: narrow_gate(p.sampling, q.sampling),
        elicitation: narrow_gate(p.elicitation, q.elicitation),
    }
}

/// Only servers present on both sides survive, each with the narrowed policy.
pub open spec fn servers_narrowed_of(
    r: Seq<(Seq<char>, McpModel)>,
    p: Seq<(Seq<char>, McpModel)>,
    q: Seq<(Seq<char>, McpModel)>,
) -> bool {
    &&& names_sorted(map_keys(r))
    &&& forall|k: Seq<char>| #[trigger] map_get(r, k) is Some <==> (map_get(p, k) is Some && map_get(q, k) is Some)
    &&& forall|k: Seq<char>| map_get(r, k) is Some ==> mcp_canonical_of(
        #[trigger] map_get(r, k).unwrap(),
        narrow_policy(map_get(p, k).unwrap(), map_get(q, k).unwrap()),
    )
}

/// `r` is `p` narrowed by `q`, field by field, in canonical form.
pub open spec fn narrowed_of(r: BlueprintModel, p: BlueprintModel, q: BlueprintModel) -> bool {
    &&& fs_narrowed_of(r.fs, p.fs, q.fs)
    &&& net_canonical_of(r.net, narrow_net(p.net, q.net))
    &&& exec_canonical_of(r.exec_posture, narrow_exec(p.exec_posture, q.exec_posture))
    &&& env_canonical_of(r.env, narrow_env(p.env, q.env))
    &&& servers_narrowed_of(r.mcp, p.mcp, q.mcp)
    &&& names_canonical_of(r.allow_credentials, names_common(p.allow_credentials, q.allow_credentials))
    &&& canonical_set_of(r.auto_widen, grants_meet(p.auto_widen, q.auto_widen))
}

fn narrow_fs(parent: &FsBlueprint, req: &FsBlueprint) -> (r: FsBlueprint)
    ensures
        fs_narrowed_of(r@, parent@, req@),
{
    let subtract = union_grants(&parent.subtract, &req.subtract);
    let write_subtract = union_grants(&parent.write_subtract, &req.write_subtract);
    let writes = intersect_grants(&parent.writes, &req.writes);
    let writes_no_create = intersect_grants(&parent.writes_no_create, &req.writes_no_create);
    let (read_mode, reads) = match (parent.read_mode, req.read_mode) {
        (ReadMode::AmbientMinusSubtract, ReadMode::AmbientMinusSubtract) => (
            ReadMode::AmbientMinusSubtract,
            union_grants(&parent.reads, &req.reads),
        ),
        (ReadMode::Closed, ReadMode::Closed) => (
            ReadMode::Closed,
            intersect_grants(&parent.reads, &req.reads),
        ),
        (ReadMode::Closed, ReadMode::AmbientMinusSubtract) => (
            ReadMode::Closed,
            canonicalize_set(parent.reads.as_slice()),
        ),
        (ReadMode::AmbientMinusSubtract, ReadMode::Closed) => (
            ReadMode::Closed,
            canonicalize_set(req.reads.as_slice()),
        ),
    };
    FsBlueprint { read_mode, reads, writes, writes_no_create, subtract, write_subtract }
}

fn common_port_list(a: &Vec<u16>, b: &Vec<u16>) -> (r: Vec<u16>)
    ensures
        r@ == common_ports(a@, b@),
{
    let mut out: Vec<u16> = Vec::new();
    let mut i: usize = 0;
    while i < a.len()
        invariant
            i <= a.len(),
            out@ == common_ports(a@.take(i as int), b@),
        decreases a.len() - i,
    {
        assert(a@.take(i + 1).drop_last() =~= a@.take(i as int));
        let mut found = false;
        let mut j: usize = 0;
        while j < b.len()
            invariant
                i < a.len(),
                j <= b.len(),
                found == exists|m: int| 0 <= m < j && #[trigger] b@[m] == a@[i as int],
            decreases b.len() - j,
        {
            if b[j] == a[i] {
                found = true;
            }
            j = j + 1;
        }
        if found {
            out.push(a[i]);
        }
        i = i + 1;
    }
    assert(a@.take(a.len() as int) =~= a@);
    out
}

fn narrow_net_posture(parent: &NetPosture, req: &NetPosture) -> (r: NetPosture)
    ensures
        r@ == narrow_net(parent@, req@),
{
    match (parent, req) {
        (NetPosture::Ports(a), NetPosture::Ports(b)) => NetPosture::Ports(common_port_list(a, b)),
        _ => NetPosture::Deny,
    }
}

fn narrow_exec_posture(parent: &ExecPosture, req: &ExecPosture) -> (r: ExecPosture)
    ensures
        exec_canonical_of(r@, narrow_exec(parent@, req@)),
{
    match (parent, req) {
        (ExecPosture::Unrestricted, ExecPosture::Unrestricted) => ExecPosture::Unrestricted,
        (ExecPosture::Unrestricted, ExecPosture::Allowlist(a)) => ExecPosture::Allowlist(
            canonicalize_set(a.as_slice()),
        ),
        (ExecPosture::Allowlist(a), ExecPosture::Unrestricted) => ExecPosture::Allowlist(
            canonicalize_set(a.as_slice()),
        ),
        (ExecPosture::Allowlist(a), ExecPosture::Allowlist(b)) => ExecPosture::Allowlist(
            intersect_grants(a, b),
        ),
    }
}

fn narrow_env_posture(parent: &EnvPosture, req: &EnvPosture) -> (r: EnvPosture)
    ensures
        r@ == narrow_env(parent@, req@),
{
    match (parent, req) {
        (EnvPosture::Passthrough, other) => other.copy(),
        (other, EnvPosture::Passthrough) => other.copy(),
        (EnvPosture::Allowlist(a), EnvPosture::Allowlist(b)) => EnvPosture::Allowlist(common_names(a, b)),
        (EnvPosture::Scrub(a), EnvPosture::Scrub(b)) => {
            let mut deny = crate::names::copy_strings(&a.deny);
            let mut more = crate::names::copy_strings(&b.deny);
            let ghost x = strs_view(deny@);
            let ghost y = strs_view(more@);
            deny.append(&mut more);
            assert(strs_view(deny@) =~= x + y);
            EnvPosture::Scrub(EnvScrub { allow: common_names(&a.allow, &b.allow), deny })
        },
        (EnvPosture::Allowlist(a), EnvPosture::Scrub(s)) => EnvPosture::Allowlist(common_names(a, &s.allow)),
        (EnvPosture::Scrub(s), EnvPosture::Allowlist(a)) => EnvPosture::Allowlist(common_names(a, &s.allow)),
    }
}

fn narrow_vis(parent: &Visibility, req: &Visibility) -> (r: Visibility)
    ensures
        r@ == narrow_visibility(parent@, req@),
{
    match (parent, req) {
        (Visibility::Deny, _) => Visibility::Deny,
        (_, Visibility::Deny) => Visibility::Deny,
        (Visibility::AllowAll, other) => other.copy(),
        (other, Visibility::AllowAll) => other.copy(),
        (Visibility::Allow(a), Visibility::Allow(b)) => {
            let names = common_names(a, b);
            if names.len() == 0 {
                Visibility::Deny
            } else {
                Visibility::Allow(names)
            }
        },
    }
}

fn narrow_gate_exec(parent: Gate, req: Gate) -> (r: Gate)
    ensures
        r == narrow_gate(parent, req),
{
    match (parent, req) {
        (Gate::Allow, Gate::Allow) => Gate::Allow,
        _ => Gate::Deny,
    }
}

fn narrow_mcp_policy(parent: &McpPolicy, req: &McpPolicy) -> (r: McpPolicy)
    ensures
        mcp_canonical_of(r@, narrow_policy(parent@, req@)),
{
    let raw = McpPolicy {
        tools: narrow_vis(&parent.tools, &req.tools),
        resources: narrow_vis(&parent.resources, &req.resources),
        prompts: narrow_vis(&parent.prompts, &req.prompts),
        sampling: narrow_gate_exec(parent.sampling, req.sampling),
        elicitation: narrow_gate_exec(parent.elicitation, req.elicitation),
    };
    raw.canonicalize()
}

fn narrow_mcp(parent: &NameMap<McpPolicy>, req: &NameMap<McpPolicy>) -> (r: NameMap<McpPolicy>)
    ensures
        servers_narrowed_of(r@, parent@, req@),
{
    let _ = parent.len();
    let n = req.len();
    let ghost qv = req@;
    let ghost pv = parent@;
    let mut out: NameMap<McpPolicy> = NameMap::new();
    let mut i: usize = 0;
    while i < n
        invariant
            n == qv.len(),
            qv == req@,
            pv == parent@,
            names_sorted(map_keys(qv)),
            names_sorted(map_keys(pv)),
            i <= n,
            forall|j: int| 0 <= j < i ==> (#[trigger] map_get(out@, qv[j].0) is Some <==> map_get(pv, qv[j].0) is Some),
            forall|j: int| 0 <= j < i && map_get(pv, qv[j].0) is Some ==> mcp_canonical_of(
                #[trigger] map_get(out@, qv[j].0).unwrap(),
                narrow_policy(map_get(pv, qv[j].0).unwrap(), qv[j].1),
            ),
            forall|k: Seq<char>| #[trigger] map_get(out@, k) is Some ==> exists|j: int| 0 <= j < i && #[trigger] qv[j].0 == k,
        decreases n - i,
    {
        let ghost before = out@;
        match parent.get(req.key(i).as_str()) {
            Some(pp) => {
                let pol = narrow_mcp_policy(pp, req.value(i));
                out.insert(copy_string(req.key(i)), pol);
            },
            None => {},
        }
        assert forall|j: int| 0 <= j < i + 1 implies (#[trigger] map_get(out@, qv[j].0) is Some <==> map_get(pv, qv[j].0) is Some) by {
            if j < i {
                lemma_keys_distinct(qv, j, i as int);
            }
        }
        assert forall|j: int| 0 <= j < i + 1 && map_get(pv, qv[j].0) is Some implies mcp_canonical_of(
            #[trigger] map_get(out@, qv[j].0).unwrap(),
            narrow_policy(map_get(pv, qv[j].0).unwrap(), qv[j].1),
        ) by {
            if j < i {
                lemma_keys_distinct(qv, j, i as int);
            }
        }
        assert forall|k: Seq<char>| #[trigger] map_get(out@, k) is Some implies exists|j: int| 0 <= j < i + 1 && #[trigger] qv[j].0 == k by {
            if k != qv[i as int].0 {
                assert(map_get(before, k) is Some);
            } else {
                assert(qv[i as int].0 == k);
            }
        }
        i = i + 1;
    }
    let _ = out.len();
    assert forall|k: Seq<char>| #[trigger] map_get(out@, k) is Some <==> (map_get(pv, k) is Some && map_get(qv, k) is Some) by {
        if map_get(out@, k) is Some {
            let j = choose|j: int| 0 <= j < n && #[trigger] qv[j].0 == k;
            lemma_map_get_at(qv, j);
        }
        if map_get(qv, k) is Some {
            lemma_map_get_some(qv, k);
            let j = choose|j: int| 0 <= j < qv.len() && #[trigger] qv[j].0 == k && Some(qv[j].1) == map_get(qv, k);
            assert(map_get(out@, qv[j].0) is Some <==> map_get(pv, qv[j].0) is Some);
        }
    }
    assert forall|k: Seq<char>| map_get(out@, k) is Some implies mcp_canonical_of(
        #[trigger] map_get(out@, k).unwrap(),
        narrow_policy(map_get(pv, k).unwrap(), map_get(qv, k).unwrap()),
    ) by {
        let j = choose|j: int| 0 <= j < n && #[trigger] qv[j].0 == k;
        lemma_map_get_at(qv, j);
    }
    out
}

impl Blueprint {
    /// Narrowing: the result is a subset of both `self` (the parent) and `requested`.
    pub fn narrow(&self, requested: &Blueprint) -> (r: Blueprint)
        ensures
            narrowed_of(r@, self@, requested@),
    {
        let raw = Blueprint {
            fs: narrow_fs(&self.fs, &requested.fs),
            net: narrow_net_posture(&self.net, &requested.net),
            exec_posture: narrow_exec_posture(&self.exec_posture, &requested.exec_posture),
            env: narrow_env_posture(&self.env, &requested.env),
            mcp: narrow_mcp(&self.mcp, &requested.mcp),
            allow_credentials: common_names(&self.allow_credentials, &requested.allow_credentials),
            discovery: DiscoveryBlueprint {
                auto_widen: intersect_grants(&self.discovery.auto_widen, &requested.discovery.auto_widen),
            },
        };
        let r = raw.canonicalize();
        proof {
            lemma_canonical_of_canonical(r@, raw@, self@, requested@);
        }
        r
    }
}


/// Canonicalizing a canonical pattern set keeps it canonical for the original input.
pub proof fn lemma_canonical_set_chain(r: Seq<PatternModel>, m: Seq<PatternModel>, x: Seq<PatternModel>)
    requires
        canonical_set_of(m, x),
        canonical_set_of(r, m),
    ensures
        canonical_set_of(r, x),
{
    canonicalize_set_is_idempotent(x, m, r);
}

pub proof fn lemma_visibility_chain(c: VisibilityModel, a: VisibilityModel, b: VisibilityModel)
    requires
        visibility_canonical_of(a, b),
        visibility_canonical_of(c, a),
    ensures
        visibility_canonical_of(c, b),
{
}

proof fn lemma_canonical_of_canonical(r: BlueprintModel, raw: BlueprintModel, p: BlueprintModel, q: BlueprintModel)
    requires
        blueprint_canonical_of(r, raw),
        fs_narrowed_of(raw.fs, p.fs, q.fs),
        raw.net == narrow_net(p.net, q.net),
        exec_canonical_of(raw.exec_posture, narrow_exec(p.exec_posture, q.exec_posture)),
        raw.env == narrow_env(p.env, q.env),
        servers_narrowed_of(raw.mcp, p.mcp, q.mcp),
        raw.allow_credentials == names_common(p.allow_credentials, q.allow_credentials),
        canonical_set_of(raw.auto_widen, grants_meet(p.auto_widen, q.auto_widen)),
    ensures
        narrowed_of(r, p, q),
{
    lemma_canonical_set_chain(r.fs.reads, raw.fs.reads, narrow_reads(p.fs, q.fs));
    lemma_canonical_set_chain(r.fs.writes, raw.fs.writes, grants_meet(p.fs.writes, q.fs.writes));
    lemma_canonical_set_chain(r.fs.writes_no_create, raw.fs.writes_no_create, grants_meet(p.fs.writes_no_create, q.fs.writes_no_create));
    lemma_canonical_set_chain(r.fs.subtract, raw.fs.subtract, p.fs.subtract + q.fs.subtract);
    lemma_canonical_set_chain(r.fs.write_subtract, raw.fs.write_subtract, p.fs.write_subtract + q.fs.write_subtract);
    lemma_canonical_set_chain(r.auto_widen, raw.auto_widen, grants_meet(p.auto_widen, q.auto_widen));
    match (r.exec_posture, raw.exec_posture, narrow_exec(p.exec_posture, q.exec_posture)) {
        (ExecModel::Allowlist(a), ExecModel::Allowlist(b), ExecModel::Allowlist(c)) => {
            lemma_canonical_set_chain(a, b, c);
        },
        _ => {},
    }
    assert forall|k: Seq<char>| map_get(r.mcp, k) is Some implies mcp_canonical_of(
        #[trigger] map_get(r.mcp, k).unwrap(),
        narrow_policy(map_get(p.mcp, k).unwrap(), map_get(q.mcp, k).unwrap()),
    ) by {
        assert(map_get(raw.mcp, k) is Some);
        let c = map_get(r.mcp, k).unwrap();
        let a = map_get(raw.mcp, k).unwrap();
        let b = narrow_policy(map_get(p.mcp, k).unwrap(), map_get(q.mcp, k).unwrap());
        lemma_visibility_chain(c.tools, a.tools, b.tools);
        lemma_visibility_chain(c.resources, a.resources, b.resources);
        lemma_visibility_chain(c.prompts, a.prompts, b.prompts);
    }
}


// ---------------------------------------------------------------------------------------------
// Laws of narrowing

pub proof fn lemma_clamp_members(s: Seq<PatternModel>, b: Seq<PatternModel>, x: PatternModel)
    requires
        clamp(s, b).contains(x),
    ensures
        s.contains(x),
        covered_by(x, b),
    decreases s.len(),
{
    let c = clamp(s.drop_last(), b);
    if covered_by(s.last(), b) && x == s.last() {
        assert(s[s.len() - 1] == x);
    } else {
        if covered_by(s.last(), b) {
            let k = choose|k: int| 0 <= k < c.push(s.last()).len() && c.push(s.last())[k] == x;
            assert(c[k] == x);
        }
        lemma_clamp_members(s.drop_last(), b, x);
        let k = choose|k: int| 0 <= k < s.drop_last().len() && s.drop_last()[k] == x;
        assert(s[k] == x);
    }
}

proof fn lemma_clamp_contains(s: Seq<PatternModel>, b: Seq<PatternModel>, x: PatternModel)
    requires
        s.contains(x),
        covered_by(x, b),
    ensures
        clamp(s, b).contains(x),
    decreases s.len(),
{
    let c = clamp(s.drop_last(), b);
    if x == s.last() {
        assert(c.push(x)[c.len() as int] == x);
    } else {
        let k = choose|k: int| 0 <= k < s.len() && s[k] == x;
        assert(s.drop_last()[k] == x);
        lemma_clamp_contains(s.drop_last(), b, x);
        if covered_by(s.last(), b) {
            let j = choose|j: int| 0 <= j < c.len() && c[j] == x;
            assert(c.push(s.last())[j] == x);
        }
    }
}

/// The grants both sides admit are covered by each side, include every grant of one side that
/// the other covers, form their own canonical set, and do not depend on which side is which.
pub proof fn intersect_grants_laws(a: Seq<PathPattern>, b: Seq<PathPattern>, r: Seq<PatternModel>, r2: Seq<PatternModel>)
    requires
        canonical_set_of(r, grants_meet(pats_view(a), pats_view(b))),
    ensures
        forall|x: PatternModel| #[trigger] r.contains(x) ==> covered_by(x, pats_view(a)) && covered_by(x, pats_view(b)),
        forall|x: PatternModel| #[trigger] pats_view(a).contains(x) && covered_by(x, pats_view(b)) ==> covered_by(x, r),
        forall|y: PatternModel| #[trigger] pats_view(b).contains(y) && covered_by(y, pats_view(a)) ==> covered_by(y, r),
        canonical_set_of(r, r),
        canonical_set_of(r2, grants_meet(pats_view(b), pats_view(a))) ==> r2 == r,
{
    let pa = pats_view(a);
    let pb = pats_view(b);
    let m = grants_meet(pa, pb);
    crate::path_set::lemma_pats_wf(a);
    crate::path_set::lemma_pats_wf(b);
    assert forall|i: int| 0 <= i < m.len() implies crate::path_set::pattern_wf(#[trigger] m[i]) by {
        assert(m.contains(m[i]));
        if i < clamp(pa, pb).len() {
            assert(clamp(pa, pb).contains(m[i]));
            lemma_clamp_members(pa, pb, m[i]);
        } else {
            assert(clamp(pb, pa)[i - clamp(pa, pb).len()] == m[i]);
            assert(clamp(pb, pa).contains(m[i]));
            lemma_clamp_members(pb, pa, m[i]);
        }
    }
    assert forall|x: PatternModel| #[trigger] r.contains(x) implies covered_by(x, pa) && covered_by(x, pb) by {
        lemma_meet_members(pa, pb, x);
    }
    assert forall|x: PatternModel| #[trigger] pa.contains(x) && covered_by(x, pb) implies covered_by(x, r) by {
        lemma_clamp_contains(pa, pb, x);
        let k = choose|k: int| 0 <= k < clamp(pa, pb).len() && clamp(pa, pb)[k] == x;
        assert(m[k] == x);
        lemma_canonical_covers(r, m, x);
    }
    assert forall|y: PatternModel| #[trigger] pb.contains(y) && covered_by(y, pa) implies covered_by(y, r) by {
        lemma_clamp_contains(pb, pa, y);
        let k = choose|k: int| 0 <= k < clamp(pb, pa).len() && clamp(pb, pa)[k] == y;
        assert(m[clamp(pa, pb).len() + k] == y);
        lemma_canonical_covers(r, m, y);
    }
    crate::path_set::canonical_set_is_its_own_form(r, m);
    let m2 = grants_meet(pb, pa);
    if canonical_set_of(r2, m2) {
        assert forall|x: PatternModel| m.contains(x) <==> m2.contains(x) by {
            if m.contains(x) {
                let k = choose|k: int| 0 <= k < m.len() && m[k] == x;
                if k < clamp(pa, pb).len() {
                    assert(m2[clamp(pb, pa).len() + k] == x);
                } else {
                    assert(m2[k - clamp(pa, pb).len()] == x);
                }
            }
            if m2.contains(x) {
                let k = choose|k: int| 0 <= k < m2.len() && m2[k] == x;
                if k < clamp(pb, pa).len() {
                    assert(m[clamp(pa, pb).len() + k] == x);
                } else {
                    assert(m[k - clamp(pb, pa).len()] == x);
                }
            }
        }
        canonicalize_set_ignores_order(m, m2, r, r2);
    }
}

/// A member of the meet of two grant lists is covered by both lists.
pub proof fn lemma_meet_members(a: Seq<PatternModel>, b: Seq<PatternModel>, x: PatternModel)
    requires
        grants_meet(a, b).contains(x),
    ensures
        covered_by(x, a),
        covered_by(x, b),
{
    let m = grants_meet(a, b);
    let k = choose|k: int| 0 <= k < m.len() && m[k] == x;
    lemma_covers_reflexive(x);
    if k < clamp(a, b).len() {
        assert(clamp(a, b)[k] == x);
        lemma_clamp_members(a, b, x);
        let j = choose|j: int| 0 <= j < a.len() && a[j] == x;
        assert(covers_model(a[j], x));
    } else {
        assert(clamp(b, a)[k - clamp(a, b).len()] == x);
        lemma_clamp_members(b, a, x);
        let j = choose|j: int| 0 <= j < b.len() && b[j] == x;
        assert(covers_model(b[j], x));
    }
}

/// Narrowing never widens a grant: every write, modify, auto-widen and exec grant of the
/// narrowed blueprint is covered by a grant of the parent and by one of the request; its reads
/// are ambient only where both sides read ambiently, and otherwise every read grant is covered
/// by the reads of each side that is closed.
pub proof fn narrow_grants_within_both(r: BlueprintModel, p: BlueprintModel, q: BlueprintModel)
    requires
        narrowed_of(r, p, q),
    ensures
        forall|x: PatternModel| #[trigger] r.fs.writes.contains(x) ==> covered_by(x, p.fs.writes) && covered_by(x, q.fs.writes),
        forall|x: PatternModel| #[trigger] r.fs.writes_no_create.contains(x) ==> covered_by(x, p.fs.writes_no_create)
            && covered_by(x, q.fs.writes_no_create),
        forall|x: PatternModel| #[trigger] r.auto_widen.contains(x) ==> covered_by(x, p.auto_widen) && covered_by(x, q.auto_widen),
        r.fs.read_mode == ReadMode::AmbientMinusSubtract ==> p.fs.read_mode == ReadMode::AmbientMinusSubtract
            && q.fs.read_mode == ReadMode::AmbientMinusSubtract,
        forall|x: PatternModel| #[trigger] r.fs.reads.contains(x) ==> (p.fs.read_mode == ReadMode::Closed ==> covered_by(x, p.fs.reads))
            && (q.fs.read_mode == ReadMode::Closed ==> covered_by(x, q.fs.reads)),
        r.exec_posture is Unrestricted ==> p.exec_posture is Unrestricted && q.exec_posture is Unrestricted,
        forall|x: PatternModel| #[trigger] r.exec_posture->Allowlist_0.contains(x) && r.exec_posture is Allowlist ==> (
            p.exec_posture is Allowlist ==> covered_by(x, p.exec_posture->Allowlist_0)) && (
            q.exec_posture is Allowlist ==> covered_by(x, q.exec_posture->Allowlist_0)),
{
    assert forall|x: PatternModel| #[trigger] r.fs.writes.contains(x) implies covered_by(x, p.fs.writes) && covered_by(x, q.fs.writes) by {
        lemma_meet_members(p.fs.writes, q.fs.writes, x);
    }
    assert forall|x: PatternModel| #[trigger] r.fs.writes_no_create.contains(x) implies covered_by(x, p.fs.writes_no_create)
        && covered_by(x, q.fs.writes_no_create) by {
        lemma_meet_members(p.fs.writes_no_create, q.fs.writes_no_create, x);
    }
    assert forall|x: PatternModel| #[trigger] r.auto_widen.contains(x) implies covered_by(x, p.auto_widen) && covered_by(x, q.auto_widen) by {
        lemma_meet_members(p.auto_widen, q.auto_widen, x);
    }
    assert forall|x: PatternModel| #[trigger] r.fs.reads.contains(x) implies (p.fs.read_mode == ReadMode::Closed ==> covered_by(x, p.fs.reads))
        && (q.fs.read_mode == ReadMode::Closed ==> covered_by(x, q.fs.reads)) by {
        lemma_covers_reflexive(x);
        match (p.fs.read_mode, q.fs.read_mode) {
            (ReadMode::Closed, ReadMode::Closed) => {
                lemma_meet_members(p.fs.reads, q.fs.reads, x);
            },
            (ReadMode::Closed, ReadMode::AmbientMinusSubtract) => {
                let j = choose|j: int| 0 <= j < p.fs.reads.len() && p.fs.reads[j] == x;
                assert(covers_model(p.fs.reads[j], x));
            },
            (ReadMode::AmbientMinusSubtract, ReadMode::Closed) => {
                let j = choose|j: int| 0 <= j < q.fs.reads.len() && q.fs.reads[j] == x;
                assert(covers_model(q.fs.reads[j], x));
            },
            _ => {},
        }
    }
    assert forall|x: PatternModel| #[trigger] r.exec_posture->Allowlist_0.contains(x) && r.exec_posture is Allowlist implies (
        p.exec_posture is Allowlist ==> covered_by(x, p.exec_posture->Allowlist_0)) && (
        q.exec_posture is Allowlist ==> covered_by(x, q.exec_posture->Allowlist_0)) by {
        lemma_covers_reflexive(x);
        match (p.exec_posture, q.exec_posture) {
            (ExecModel::Allowlist(a), ExecModel::Allowlist(b)) => {
                lemma_meet_members(a, b, x);
            },
            (ExecModel::Unrestricted, ExecModel::Allowlist(b)) => {
                let j = choose|j: int| 0 <= j < b.len() && b[j] == x;
                assert(covers_model(b[j], x));
            },
            (ExecModel::Allowlist(a), ExecModel::Unrestricted) => {
                let j = choose|j: int| 0 <= j < a.len() && a[j] == x;
                assert(covers_model(a[j], x));
            },
            _ => {},
        }
    }
}

/// Canonical name lists keep membership.
proof fn lemma_env_canonical_keeps(r: EnvModel, e: EnvModel, n: Seq<char>, v: Seq<char>)
    requires
        env_canonical_of(r, e),
    ensures
        env_keeps(r, n, v) == env_keeps(e, n, v),
{
}

/// Narrowing never drops a deny hole: every subtract and every write-subtract pattern of either
/// side is covered by one of the narrowed blueprint.
pub proof fn narrow_keeps_every_deny_hole(r: BlueprintModel, p: BlueprintModel, q: BlueprintModel)
    requires
        narrowed_of(r, p, q),
        forall|i: int| 0 <= i < p.fs.subtract.len() ==> pattern_wf(#[trigger] p.fs.subtract[i]),
        forall|i: int| 0 <= i < q.fs.subtract.len() ==> pattern_wf(#[trigger] q.fs.subtract[i]),
        forall|i: int| 0 <= i < p.fs.write_subtract.len() ==> pattern_wf(#[trigger] p.fs.write_subtract[i]),
        forall|i: int| 0 <= i < q.fs.write_subtract.len() ==> pattern_wf(#[trigger] q.fs.write_subtract[i]),
    ensures
        forall|x: PatternModel| #[trigger] p.fs.subtract.contains(x) || q.fs.subtract.contains(x) ==> covered_by(x, r.fs.subtract),
        forall|x: PatternModel| #[trigger] p.fs.write_subtract.contains(x) || q.fs.write_subtract.contains(x) ==> covered_by(x, r.fs.write_subtract),
{
    let s = p.fs.subtract + q.fs.subtract;
    let w = p.fs.write_subtract + q.fs.write_subtract;
    assert forall|i: int| 0 <= i < s.len() implies pattern_wf(#[trigger] s[i]) by {
        if i < p.fs.subtract.len() {
            assert(s[i] == p.fs.subtract[i]);
        } else {
            assert(s[i] == q.fs.subtract[i - p.fs.subtract.len()]);
        }
    }
    assert forall|i: int| 0 <= i < w.len() implies pattern_wf(#[trigger] w[i]) by {
        if i < p.fs.write_subtract.len() {
            assert(w[i] == p.fs.write_subtract[i]);
        } else {
            assert(w[i] == q.fs.write_subtract[i - p.fs.write_subtract.len()]);
        }
    }
    assert forall|x: PatternModel| #[trigger] p.fs.subtract.contains(x) || q.fs.subtract.contains(x) implies covered_by(x, r.fs.subtract) by {
        if p.fs.subtract.contains(x) {
            let k = choose|k: int| 0 <= k < p.fs.subtract.len() && p.fs.subtract[k] == x;
            assert(s[k] == x);
        } else {
            let k = choose|k: int| 0 <= k < q.fs.subtract.len() && q.fs.subtract[k] == x;
            assert(s[p.fs.subtract.len() + k] == x);
        }
        crate::path_set::lemma_canonical_covers(r.fs.subtract, s, x);
    }
    assert forall|x: PatternModel| #[trigger] p.fs.write_subtract.contains(x) || q.fs.write_subtract.contains(x) implies covered_by(x, r.fs.write_subtract) by {
        if p.fs.write_subtract.contains(x) {
            let k = choose|k: int| 0 <= k < p.fs.write_subtract.len() && p.fs.write_subtract[k] == x;
            assert(w[k] == x);
        } else {
            let k = choose|k: int| 0 <= k < q.fs.write_subtract.len() && q.fs.write_subtract[k] == x;
            assert(w[p.fs.write_subtract.len() + k] == x);
        }
        crate::path_set::lemma_canonical_covers(r.fs.write_subtract, w, x);
    }
}

/// Narrowing never admits an environment variable that either side would drop.
pub proof fn narrow_env_admits_no_more(r: BlueprintModel, p: BlueprintModel, q: BlueprintModel, name: Seq<char>, value: Seq<char>)
    requires
        narrowed_of(r, p, q),
        env_keeps(r.env, name, value),
    ensures
        env_keeps(p.env, name, value),
        env_keeps(q.env, name, value),
{
    lemma_env_canonical_keeps(r.env, narrow_env(p.env, q.env), name, value);
    match (p.env, q.env) {
        (EnvModel::Allowlist(a), EnvModel::Allowlist(b)) => {
            crate::names::lemma_names_common_contains(a, b, name);
        },
        (EnvModel::Scrub(a), EnvModel::Scrub(b)) => {
            crate::names::lemma_names_common_contains(a.allow, b.allow, name);
            assert((a.deny + b.deny).contains(name) <== a.deny.contains(name)) by {
                if a.deny.contains(name) {
                    let k = choose|k: int| 0 <= k < a.deny.len() && a.deny[k] == name;
                    assert((a.deny + b.deny)[k] == name);
                }
            }
            assert((a.deny + b.deny).contains(name) <== b.deny.contains(name)) by {
                if b.deny.contains(name) {
                    let k = choose|k: int| 0 <= k < b.deny.len() && b.deny[k] == name;
                    assert((a.deny + b.deny)[a.deny.len() + k] == name);
                }
            }
        },
        (EnvModel::Allowlist(a), EnvModel::Scrub(sc)) => {
            crate::names::lemma_names_common_contains(a, sc.allow, name);
        },
        (EnvModel::Scrub(sc), EnvModel::Allowlist(a)) => {
            crate::names::lemma_names_common_contains(a, sc.allow, name);
        },
        _ => {},
    }
}

/// Narrowing keeps only ports both sides allow, exactly the servers both sides name (with nothing
/// visible or gated open that either side hides or gates shut), and only credential exemptions
/// both sides grant.
pub proof fn narrow_net_mcp_credentials_within_both(r: BlueprintModel, p: BlueprintModel, q: BlueprintModel)
    requires
        narrowed_of(r, p, q),
    ensures
        r.net is Ports ==> p.net is Ports && q.net is Ports && forall|x: u16| #[trigger] r.net->Ports_0.contains(x) ==> p.net->Ports_0.contains(x)
            && q.net->Ports_0.contains(x),
        forall|k: Seq<char>| #[trigger] map_get(r.mcp, k) is Some <==> map_get(p.mcp, k) is Some && map_get(q.mcp, k) is Some,
        forall|k: Seq<char>, n: Seq<char>| map_get(r.mcp, k) is Some && #[trigger] visibility_permits(map_get(r.mcp, k).unwrap().tools, n)
            ==> visibility_permits(map_get(p.mcp, k).unwrap().tools, n) && visibility_permits(map_get(q.mcp, k).unwrap().tools, n),
        forall|k: Seq<char>, n: Seq<char>| map_get(r.mcp, k) is Some && #[trigger] visibility_permits(map_get(r.mcp, k).unwrap().resources, n)
            ==> visibility_permits(map_get(p.mcp, k).unwrap().resources, n) && visibility_permits(map_get(q.mcp, k).unwrap().resources, n),
        forall|k: Seq<char>, n: Seq<char>| map_get(r.mcp, k) is Some && #[trigger] visibility_permits(map_get(r.mcp, k).unwrap().prompts, n)
            ==> visibility_permits(map_get(p.mcp, k).unwrap().prompts, n) && visibility_permits(map_get(q.mcp, k).unwrap().prompts, n),
        forall|k: Seq<char>| #[trigger] map_get(r.mcp, k) is Some && map_get(r.mcp, k).unwrap().sampling == Gate::Allow
            ==> map_get(p.mcp, k).unwrap().sampling == Gate::Allow && map_get(q.mcp, k).unwrap().sampling == Gate::Allow,
        forall|k: Seq<char>| #[trigger] map_get(r.mcp, k) is Some && map_get(r.mcp, k).unwrap().elicitation == Gate::Allow
            ==> map_get(p.mcp, k).unwrap().elicitation == Gate::Allow && map_get(q.mcp, k).unwrap().elicitation == Gate::Allow,
        forall|t: Seq<char>| #[trigger] r.allow_credentials.contains(t) ==> p.allow_credentials.contains(t)
            && q.allow_credentials.contains(t),
{
    if r.net is Ports {
        let (a, b) = (p.net->Ports_0, q.net->Ports_0);
        assert forall|x: u16| #[trigger] r.net->Ports_0.contains(x) implies a.contains(x) && b.contains(x) by {
            lemma_common_ports_contains(a, b, x);
        }
    }
    assert forall|k: Seq<char>, n: Seq<char>| map_get(r.mcp, k) is Some && #[trigger] visibility_permits(map_get(r.mcp, k).unwrap().tools, n)
        implies visibility_permits(map_get(p.mcp, k).unwrap().tools, n) && visibility_permits(map_get(q.mcp, k).unwrap().tools, n) by {
        lemma_narrow_visibility_permits(map_get(p.mcp, k).unwrap().tools, map_get(q.mcp, k).unwrap().tools, map_get(r.mcp, k).unwrap().tools, n);
    }
    assert forall|k: Seq<char>, n: Seq<char>| map_get(r.mcp, k) is Some && #[trigger] visibility_permits(map_get(r.mcp, k).unwrap().resources, n)
        implies visibility_permits(map_get(p.mcp, k).unwrap().resources, n) && visibility_permits(map_get(q.mcp, k).unwrap().resources, n) by {
        lemma_narrow_visibility_permits(map_get(p.mcp, k).unwrap().resources, map_get(q.mcp, k).unwrap().resources, map_get(r.mcp, k).unwrap().resources, n);
    }
    assert forall|k: Seq<char>, n: Seq<char>| map_get(r.mcp, k) is Some && #[trigger] visibility_permits(map_get(r.mcp, k).unwrap().prompts, n)
        implies visibility_permits(map_get(p.mcp, k).unwrap().prompts, n) && visibility_permits(map_get(q.mcp, k).unwrap().prompts, n) by {
        lemma_narrow_visibility_permits(map_get(p.mcp, k).unwrap().prompts, map_get(q.mcp, k).unwrap().prompts, map_get(r.mcp, k).unwrap().prompts, n);
    }
    assert forall|t: Seq<char>| #[trigger] r.allow_credentials.contains(t) implies p.allow_credentials.contains(t)
        && q.allow_credentials.contains(t) by {
        crate::names::lemma_names_common_contains(p.allow_credentials, q.allow_credentials, t);
    }
}

pub proof fn lemma_common_ports_contains(a: Seq<u16>, b: Seq<u16>, x: u16)
    ensures
        common_ports(a, b).contains(x) <==> (a.contains(x) && b.contains(x)),
    decreases a.len(),
{
    if a.len() > 0 {
        lemma_common_ports_contains(a.drop_last(), b, x);
        let c = common_ports(a.drop_last(), b);
        if a.contains(x) && x != a.last() {
            let k = choose|k: int| 0 <= k < a.len() && a[k] == x;
            assert(a.drop_last()[k] == x);
        }
        if a.drop_last().contains(x) {
            let k = choose|k: int| 0 <= k < a.drop_last().len() && a.drop_last()[k] == x;
            assert(a[k] == x);
        }
        if b.contains(a.last()) {
            let n = c.push(a.last());
            if n.contains(x) && x != a.last() {
                let k = choose|k: int| 0 <= k < n.len() && n[k] == x;
                assert(c[k] == x);
            }
            if c.contains(x) {
                let k = choose|k: int| 0 <= k < c.len() && c[k] == x;
                assert(n[k] == x);
            }
            assert(n[c.len() as int] == a.last());
        }
        assert(a[a.len() - 1] == a.last());
    }
}

proof fn lemma_narrow_visibility_permits(p: VisibilityModel, q: VisibilityModel, r: VisibilityModel, n: Seq<char>)
    requires
        visibility_canonical_of(r, narrow_visibility(p, q)),
        visibility_permits(r, n),
    ensures
        visibility_permits(p, n),
        visibility_permits(q, n),
{
    match (p, q) {
        (VisibilityModel::Allow(a), VisibilityModel::Allow(b)) => {
            crate::names::lemma_names_common_contains(a, b, n);
        },
        _ => {},
    }
}

} // verus!
