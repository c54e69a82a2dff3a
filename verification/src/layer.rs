//! Blueprint layering: a `BlueprintLayer` is one surface's partial contribution -- a preset, the
//! named file, or the command-line override set -- and `merge` folds a fixed stack of them into
//! the effective `Blueprint`. Path sets merge additively (deny still beats allow at match time,
//! so no layer can shadow another's deny); postures are last-set-wins; servers merge per server,
//! last set wins. The fold is deterministic. `extends` resolution reads files, so it lives with
//! the loader; the merge sees an already-flattened stack.

use vstd::prelude::*;
use crate::blueprint::{Mode, blueprint_canonical_of, empty_blueprint, env_canonical_of, exec_canonical_of, mcp_canonical_of, names_canonical_of, net_canonical_of, Blueprint, BlueprintModel, DiscoveryBlueprint, EnvModel, EnvPosture, ExecModel, ExecPosture, FsBlueprint, FsModel, McpModel, McpPolicy, NetModel, NetPosture, ReadMode};
use crate::names::{copy_string, copy_strings, lemma_map_get_at, map_get, map_keys, names_sorted, strs_view, NameMap};
use crate::path::{PathPattern, PatternModel};
use crate::path_set::{canonical_set_of, copy_patterns, pats_view};

verus! {

/// `FsBlueprint` with set and unset distinguishable: in a layer, an absent read mode inherits
/// rather than meaning closed.
#[derive(Clone, Debug, PartialEq, Eq)]
pub struct FsLayer {
    pub read_mode: Option<ReadMode>,
    pub reads: Vec<PathPattern>,
    pub writes: Vec<PathPattern>,
    pub writes_no_create: Vec<PathPattern>,
    pub subtract: Vec<PathPattern>,
    pub write_subtract: Vec<PathPattern>,
}

impl Default for FsLayer {
    fn default() -> (r: FsLayer)
        ensures
            r.read_mode is None,
            r.reads@.len() == 0 && r.writes@.len() == 0 && r.writes_no_create@.len() == 0,
            r.subtract@.len() == 0 && r.write_subtract@.len() == 0,
    {
        FsLayer {
            read_mode: None,
            reads: Vec::new(),
            writes: Vec::new(),
            writes_no_create: Vec::new(),
            subtract: Vec::new(),
            write_subtract: Vec::new(),
        }
    }
}

/// Who added a discovered grant: `discovery` (operator-accepted) or `discovery-auto` (inside the
/// auto-widen zone), and in which learning run.
#[derive(Clone, Debug, PartialEq, Eq)]
pub struct ProvenanceEntry {
    pub added_via: String,
    pub run_id: String,
}

impl View for ProvenanceEntry {
    type V = (Seq<char>, Seq<char>);

    open spec fn view(&self) -> (Seq<char>, Seq<char>) {
        (self.added_via@, self.run_id@)
    }
}

/// Discovery inputs a layer may carry. `auto_widen` bounds what a learning run may self-grant
/// and survives the merge; `provenance` is audit metadata recorded in discovered-layer files and
/// is deliberately not merged into the grant.
#[derive(Clone, Debug, PartialEq, Eq)]
pub struct DiscoveryLayer {
    pub auto_widen: Vec<PathPattern>,
    pub provenance: NameMap<ProvenanceEntry>,
}

impl Default for DiscoveryLayer {
    fn default() -> (r: DiscoveryLayer)
        ensures
            r.auto_widen@.len() == 0,
            r.provenance@.len() == 0,
    {
        DiscoveryLayer { auto_widen: Vec::new(), provenance: NameMap::new() }
    }
}

/// One surface's partial contribution to the effective blueprint.
#[derive(Clone, Debug, PartialEq, Eq)]
pub struct BlueprintLayer {
    /// Base blueprints this layer sits on, lowest first; the loader flattens the chain and empties
    /// this field before merge.
    pub extends: Vec<String>,
    /// The reads posture in flat-rule form; the loader maps it onto `fs.read_mode` and empties it.
    pub mode: Option<Mode>,
    /// Flat `"<verb>:<path>"` rules; the loader desugars them into `fs` and the exec posture and
    /// empties this field before merge.
    pub rules: Vec<String>,
    pub fs: FsLayer,
    pub net: Option<NetPosture>,
    pub exec_posture: Option<ExecPosture>,
    pub env: Option<EnvPosture>,
    pub mcp: NameMap<McpPolicy>,
    /// Credential types deliberately let through; unions across layers.
    pub allow_credentials: Vec<String>,
    pub discovery: DiscoveryLayer,
}

impl Default for BlueprintLayer {
    fn default() -> (r: BlueprintLayer)
        ensures
            r.extends@.len() == 0,
            r.mode is None,
            r.rules@.len() == 0,
            r.fs.read_mode is None,
            r.net is None && r.exec_posture is None && r.env is None,
            r.mcp@.len() == 0,
            r.allow_credentials@.len() == 0,
            r.discovery.auto_widen@.len() == 0,
            r.discovery.provenance@.len() == 0,
    {
        BlueprintLayer {
            extends: Vec::new(),
            mode: None,
            rules: Vec::new(),
            fs: FsLayer::default(),
            net: None,
            exec_posture: None,
            env: None,
            mcp: NameMap::new(),
            allow_credentials: Vec::new(),
            discovery: DiscoveryLayer::default(),
        }
    }
}

/// What a layer contributes to the merge.
pub struct LayerModel {
    pub read_mode: Option<ReadMode>,
    pub reads: Seq<PatternModel>,
    pub writes: Seq<PatternModel>,
    pub writes_no_create: Seq<PatternModel>,
    pub subtract: Seq<PatternModel>,
    pub write_subtract: Seq<PatternModel>,
    pub net: Option<NetModel>,
    pub exec_posture: Option<ExecModel>,
    pub env: Option<EnvModel>,
    pub mcp: Seq<(Seq<char>, McpModel)>,
    pub allow_credentials: Seq<Seq<char>>,
    pub auto_widen: Seq<PatternModel>,
}

impl View for BlueprintLayer {
    type V = LayerModel;

    open spec fn view(&self) -> LayerModel {
        LayerModel {
            read_mode: self.fs.read_mode,
            reads: pats_view(self.fs.reads@),
            writes: pats_view(self.fs.writes@),
            writes_no_create: pats_view(self.fs.writes_no_create@),
            subtract: pats_view(self.fs.subtract@),
            write_subtract: pats_view(self.fs.write_subtract@),
            net: match self.net {
                Some(n) => Some(n@),
                None => None,
            },
            exec_posture: match self.exec_posture {
                Some(e) => Some(e@),
                None => None,
            },
            env: match self.env {
                Some(e) => Some(e@),
                None => None,
            },
            mcp: self.mcp@,
            allow_credentials: strs_view(self.allow_credentials@),
            auto_widen: pats_view(self.discovery.auto_widen@),
        }
    }
}

pub open spec fn layers_view(v: Seq<BlueprintLayer>) -> Seq<LayerModel> {
    v.map_values(|l: BlueprintLayer| l@)
}

/// The read mode the last layer that sets one sets; `Closed` when none does.
pub open spec fn merged_read_mode(ls: Seq<LayerModel>) -> ReadMode
    decreases ls.len(),
{
    if ls.len() == 0 {
        ReadMode::Closed
    } else {
        match ls.last().read_mode {
            Some(m) => m,
            None => merged_read_mode(ls.drop_last()),
        }
    }
}

pub open spec fn merged_net(ls: Seq<LayerModel>) -> NetModel
    decreases ls.len(),
{
    if ls.len() == 0 {
        NetModel::Deny
    } else {
        match ls.last().net {
            Some(n) => n,
            None => merged_net(ls.drop_last()),
        }
    }
}

pub open spec fn merged_exec(ls: Seq<LayerModel>) -> ExecModel
    decreases ls.len(),
{
    if ls.len() == 0 {
        ExecModel::Unrestricted
    } else {
        match ls.last().exec_posture {
            Some(e) => e,
            None => merged_exec(ls.drop_last()),
        }
    }
}

pub open spec fn merged_env(ls: Seq<LayerModel>) -> EnvModel
    decreases ls.len(),
{
    if ls.len() == 0 {
        EnvModel::Passthrough
    } else {
        match ls.last().env {
            Some(e) => e,
            None => merged_env(ls.drop_last()),
        }
    }
}

/// The policy of server `k` in the last layer that names it.
pub open spec fn merged_server(ls: Seq<LayerModel>, k: Seq<char>) -> Option<McpModel>
    decreases ls.len(),
{
    if ls.len() == 0 {
        None
    } else {
        match map_get(ls.last().mcp, k) {
            Some(p) => Some(p),
            None => merged_server(ls.drop_last(), k),
        }
    }
}

/// Which path set of a layer.
pub enum PathField {
    Reads,
    Writes,
    WritesNoCreate,
    Subtract,
    WriteSubtract,
    AutoWiden,
}

pub open spec fn layer_paths(l: LayerModel, f: PathField) -> Seq<PatternModel> {
    match f {
        PathField::Reads => l.reads,
        PathField::Writes => l.writes,
        PathField::WritesNoCreate => l.writes_no_create,
        PathField::Subtract => l.subtract,
        PathField::WriteSubtract => l.write_subtract,
        PathField::AutoWiden => l.auto_widen,
    }
}

/// One path set of every layer, concatenated lowest first.
pub open spec fn stacked_paths(ls: Seq<LayerModel>, f: PathField) -> Seq<PatternModel>
    decreases ls.len(),
{
    if ls.len() == 0 {
        Seq::empty()
    } else {
        stacked_paths(ls.drop_last(), f) + layer_paths(ls.last(), f)
    }
}

pub open spec fn stacked_credentials(ls: Seq<LayerModel>) -> Seq<Seq<char>>
    decreases ls.len(),
{
    if ls.len() == 0 {
        Seq::empty()
    } else {
        stacked_credentials(ls.drop_last()) + ls.last().allow_credentials
    }
}

/// `r` is the merge of the stack `ls`, in canonical form: path sets and credential exemptions
/// unioned, postures and the read mode taken from the last layer that sets them, each server's
/// policy from the last layer that names it.
pub open spec fn merged_of(r: BlueprintModel, ls: Seq<LayerModel>) -> bool {
    &&& r.fs.read_mode == merged_read_mode(ls)
    &&& canonical_set_of(r.fs.reads, stacked_paths(ls, PathField::Reads))
    &&& canonical_set_of(r.fs.writes, stacked_paths(ls, PathField::Writes))
    &&& canonical_set_of(r.fs.writes_no_create, stacked_paths(ls, PathField::WritesNoCreate))
    &&& canonical_set_of(r.fs.subtract, stacked_paths(ls, PathField::Subtract))
    &&& canonical_set_of(r.fs.write_subtract, stacked_paths(ls, PathField::WriteSubtract))
    &&& net_canonical_of(r.net, merged_net(ls))
    &&& exec_canonical_of(r.exec_posture, merged_exec(ls))
    &&& env_canonical_of(r.env, merged_env(ls))
    &&& names_sorted(map_keys(r.mcp))
    &&& forall|k: Seq<char>| #[trigger] map_get(r.mcp, k) is Some <==> merged_server(ls, k) is Some
    &&& forall|k: Seq<char>| merged_server(ls, k) is Some ==> mcp_canonical_of(
        #[trigger] map_get(r.mcp, k).unwrap(),
        merged_server(ls, k).unwrap(),
    )
    &&& names_canonical_of(r.allow_credentials, stacked_credentials(ls))
    &&& canonical_set_of(r.auto_widen, stacked_paths(ls, PathField::AutoWiden))
}

fn append_patterns(out: &mut Vec<PathPattern>, more: &Vec<PathPattern>)
    ensures
        pats_view(final(out)@) == pats_view(old(out)@) + pats_view(more@),
{
    let mut m = copy_patterns(more);
    let ghost a = pats_view(out@);
    let ghost b = pats_view(m@);
    out.append(&mut m);
    assert(pats_view(out@) =~= a + b);
}

/// Lays one layer over the blueprint merged so far.
pub(crate) fn apply_layer(out: &mut Blueprint, layer: &BlueprintLayer)
    ensures
        final(out)@.fs.read_mode == match layer@.read_mode {
            Some(m) => m,
            None => old(out)@.fs.read_mode,
        },
        final(out)@.fs.reads == old(out)@.fs.reads + layer@.reads,
        final(out)@.fs.writes == old(out)@.fs.writes + layer@.writes,
        final(out)@.fs.writes_no_create == old(out)@.fs.writes_no_create + layer@.writes_no_create,
        final(out)@.fs.subtract == old(out)@.fs.subtract + layer@.subtract,
        final(out)@.fs.write_subtract == old(out)@.fs.write_subtract + layer@.write_subtract,
        final(out)@.auto_widen == old(out)@.auto_widen + layer@.auto_widen,
        final(out)@.net == match layer@.net {
            Some(n) => n,
            None => old(out)@.net,
        },
        final(out)@.exec_posture == match layer@.exec_posture {
            Some(e) => e,
            None => old(out)@.exec_posture,
        },
        final(out)@.env == match layer@.env {
            Some(e) => e,
            None => old(out)@.env,
        },
        final(out)@.allow_credentials == old(out)@.allow_credentials + layer@.allow_credentials,
        forall|k: Seq<char>| #[trigger] map_get(final(out)@.mcp, k) == match map_get(layer@.mcp, k) {
            Some(v) => Some(v),
            None => map_get(old(out)@.mcp, k),
        },
{
    if let Some(mode) = layer.fs.read_mode {
        out.fs.read_mode = mode;
    }
    append_patterns(&mut out.fs.reads, &layer.fs.reads);
    append_patterns(&mut out.fs.writes, &layer.fs.writes);
    append_patterns(&mut out.fs.writes_no_create, &layer.fs.writes_no_create);
    append_patterns(&mut out.fs.subtract, &layer.fs.subtract);
    append_patterns(&mut out.fs.write_subtract, &layer.fs.write_subtract);
    append_patterns(&mut out.discovery.auto_widen, &layer.discovery.auto_widen);
    if let Some(net) = &layer.net {
        out.net = net.copy();
    }
    if let Some(exec) = &layer.exec_posture {
        out.exec_posture = exec.copy();
    }
    if let Some(env) = &layer.env {
        out.env = env.copy();
    }
    let mut servers: NameMap<McpPolicy> = NameMap::new();
    std::mem::swap(&mut servers, &mut out.mcp);
    let ghost before = servers@;
    let ghost lm = layer@.mcp;
    let n = layer.mcp.len();
    let mut m: usize = 0;
    assert(lm.take(0) =~= Seq::<(Seq<char>, McpModel)>::empty());
    while m < n
        invariant
            n == lm.len(),
            lm == layer.mcp@,
            m <= n,
            forall|k: Seq<char>| #[trigger] map_get(servers@, k) == match map_get(lm.take(m as int), k) {
                Some(v) => Some(v),
                None => map_get(before, k),
            },
        decreases n - m,
    {
        let key = copy_string(layer.mcp.key(m));
        let pol = layer.mcp.value(m).copy();
        servers.insert(key, pol);
        let ghost tm = lm.take(m + 1);
        assert(tm.drop_last() =~= lm.take(m as int));
        assert(tm.last() == lm[m as int]);
        m = m + 1;
    }
    assert(lm.take(n as int) =~= lm);
    out.mcp = servers;
    let mut creds = copy_strings(&layer.allow_credentials);
    let ghost c0 = strs_view(out.allow_credentials@);
    let ghost c1 = strs_view(creds@);
    out.allow_credentials.append(&mut creds);
    assert(strs_view(out.allow_credentials@) =~= c0 + c1);
}

/// Fold a stack of layers, lowest first, into the effective blueprint. The baseline is the
/// fail-closed empty blueprint; the credential floor is applied by the compiler, not here, so no
/// layer stack can carry it away.
pub fn merge(layers: &[BlueprintLayer]) -> (r: Blueprint)
    ensures
        merged_of(r@, layers_view(layers@)),
{
    let ghost ls = layers_view(layers@);
    let mut out = Blueprint::empty();
    let mut i: usize = 0;
    assert(ls.take(0) =~= Seq::<LayerModel>::empty());
    while i < layers.len()
        invariant
            ls == layers_view(layers@),
            i <= layers.len(),
            merge_state(out@, ls.take(i as int)),
        decreases layers.len() - i,
    {
        let layer = &layers[i];
        let ghost t = ls.take(i + 1);
        assert(t.drop_last() =~= ls.take(i as int));
        assert(t.last() == layer@);
        apply_layer(&mut out, layer);
        i = i + 1;
    }
    assert(ls.take(layers.len() as int) =~= ls);
    let r = out.canonicalize();
    proof {
        lemma_merge_state_done(out@, r@, ls);
    }
    r
}

/// The blueprint folded so far, before canonicalization, from the stack `ls`.
pub open spec fn merge_state(b: BlueprintModel, ls: Seq<LayerModel>) -> bool {
    &&& b.fs.read_mode == merged_read_mode(ls)
    &&& b.fs.reads == stacked_paths(ls, PathField::Reads)
    &&& b.fs.writes == stacked_paths(ls, PathField::Writes)
    &&& b.fs.writes_no_create == stacked_paths(ls, PathField::WritesNoCreate)
    &&& b.fs.subtract == stacked_paths(ls, PathField::Subtract)
    &&& b.fs.write_subtract == stacked_paths(ls, PathField::WriteSubtract)
    &&& b.auto_widen == stacked_paths(ls, PathField::AutoWiden)
    &&& b.net == merged_net(ls)
    &&& b.exec_posture == merged_exec(ls)
    &&& b.env == merged_env(ls)
    &&& b.allow_credentials == stacked_credentials(ls)
    &&& forall|k: Seq<char>| #[trigger] map_get(b.mcp, k) == merged_server(ls, k)
}

pub proof fn lemma_merge_state_done(raw: BlueprintModel, r: BlueprintModel, ls: Seq<LayerModel>)
    requires
        merge_state(raw, ls),
        blueprint_canonical_of(r, raw),
    ensures
        merged_of(r, ls),
{
    assert forall|k: Seq<char>| merged_server(ls, k) is Some implies mcp_canonical_of(
        #[trigger] map_get(r.mcp, k).unwrap(),
        merged_server(ls, k).unwrap(),
    ) by {
        assert(map_get(raw.mcp, k) == merged_server(ls, k));
    }
    assert forall|k: Seq<char>| #[trigger] map_get(r.mcp, k) is Some <==> merged_server(ls, k) is Some by {
        assert(map_get(raw.mcp, k) == merged_server(ls, k));
    }
}

/// The merge is a function of the stack: two results that are both its merge are equal.
pub proof fn merge_is_deterministic(r1: BlueprintModel, r2: BlueprintModel, ls: Seq<LayerModel>)
    requires
        merged_of(r1, ls),
        merged_of(r2, ls),
    ensures
        r1 == r2,
{
    crate::names::lemma_names_unique(r1.allow_credentials, r2.allow_credentials);
    crate::path_set::canonicalize_set_ignores_order(stacked_paths(ls, PathField::Reads), stacked_paths(ls, PathField::Reads), r1.fs.reads, r2.fs.reads);
    crate::path_set::canonicalize_set_ignores_order(stacked_paths(ls, PathField::Writes), stacked_paths(ls, PathField::Writes), r1.fs.writes, r2.fs.writes);
    crate::path_set::canonicalize_set_ignores_order(stacked_paths(ls, PathField::WritesNoCreate), stacked_paths(ls, PathField::WritesNoCreate), r1.fs.writes_no_create, r2.fs.writes_no_create);
    crate::path_set::canonicalize_set_ignores_order(stacked_paths(ls, PathField::Subtract), stacked_paths(ls, PathField::Subtract), r1.fs.subtract, r2.fs.subtract);
    crate::path_set::canonicalize_set_ignores_order(stacked_paths(ls, PathField::WriteSubtract), stacked_paths(ls, PathField::WriteSubtract), r1.fs.write_subtract, r2.fs.write_subtract);
    crate::path_set::canonicalize_set_ignores_order(stacked_paths(ls, PathField::AutoWiden), stacked_paths(ls, PathField::AutoWiden), r1.auto_widen, r2.auto_widen);
    if let NetModel::Ports(p) = merged_net(ls) {
        if p.len() > 0 {
            crate::names::lemma_ports_unique(r1.net->Ports_0, r2.net->Ports_0);
        }
    }
    if let ExecModel::Allowlist(a) = merged_exec(ls) {
        crate::path_set::canonicalize_set_ignores_order(a, a, r1.exec_posture->Allowlist_0, r2.exec_posture->Allowlist_0);
    }
    match merged_env(ls) {
        EnvModel::Allowlist(n) => {
            crate::names::lemma_names_unique(r1.env->Allowlist_0, r2.env->Allowlist_0);
        },
        EnvModel::Scrub(sc) => {
            crate::names::lemma_names_unique(r1.env->Scrub_0.allow, r2.env->Scrub_0.allow);
            crate::names::lemma_names_unique(r1.env->Scrub_0.deny, r2.env->Scrub_0.deny);
        },
        EnvModel::Passthrough => {},
    }
    assert forall|k: Seq<char>| map_get(r1.mcp, k) == map_get(r2.mcp, k) by {
        if merged_server(ls, k) is Some {
            let m = merged_server(ls, k).unwrap();
            let a = map_get(r1.mcp, k).unwrap();
            let b = map_get(r2.mcp, k).unwrap();
            lemma_vis_unique(a.tools, b.tools, m.tools);
            lemma_vis_unique(a.resources, b.resources, m.resources);
            lemma_vis_unique(a.prompts, b.prompts, m.prompts);
        }
    }
    crate::names::lemma_map_unique(r1.mcp, r2.mcp);
}

proof fn lemma_vis_unique(a: crate::blueprint::VisibilityModel, b: crate::blueprint::VisibilityModel, m: crate::blueprint::VisibilityModel)
    requires
        crate::blueprint::visibility_canonical_of(a, m),
        crate::blueprint::visibility_canonical_of(b, m),
    ensures
        a == b,
{
    if let crate::blueprint::VisibilityModel::Allow(n) = m {
        crate::names::lemma_names_unique(a->Allow_0, b->Allow_0);
    }
}

impl BlueprintLayer {
    /// A full blueprint viewed as one layer: every posture set, every set carried over.
    /// `merge(&[BlueprintLayer::from_blueprint(bp)])` equals `bp.canonicalize()` (see
    /// `merging_a_full_layer_canonicalizes`).
    pub fn from_blueprint(bp: &Blueprint) -> (r: BlueprintLayer)
        ensures
            r@ == full_layer(bp@),
            r.extends@.len() == 0,
            r.mode is None,
            r.rules@.len() == 0,
            r.discovery.provenance@.len() == 0,
    {
        let mut mcp: NameMap<McpPolicy> = NameMap::new();
        let n = bp.mcp.len();
        let ghost bm = bp.mcp@;
        let mut i: usize = 0;
        while i < n
            invariant
                n == bm.len(),
                bm == bp.mcp@,
                names_sorted(map_keys(bm)),
                i <= n,
                forall|k: Seq<char>| #[trigger] map_get(mcp@, k) == map_get(bm.take(i as int), k),
            decreases n - i,
        {
            mcp.insert(copy_string(bp.mcp.key(i)), bp.mcp.value(i).copy());
            let ghost t = bm.take(i + 1);
            assert(t.drop_last() =~= bm.take(i as int));
            assert(t.last() == bm[i as int]);
            i = i + 1;
        }
        assert(bm.take(n as int) =~= bm);
        let _ = mcp.len();
        proof {
            crate::names::lemma_map_unique(mcp@, bm);
        }
        BlueprintLayer {
            extends: Vec::new(),
            mode: None,
            rules: Vec::new(),
            fs: FsLayer {
                read_mode: Some(bp.fs.read_mode),
                reads: copy_patterns(&bp.fs.reads),
                writes: copy_patterns(&bp.fs.writes),
                writes_no_create: copy_patterns(&bp.fs.writes_no_create),
                subtract: copy_patterns(&bp.fs.subtract),
                write_subtract: copy_patterns(&bp.fs.write_subtract),
            },
            net: Some(bp.net.copy()),
            exec_posture: Some(bp.exec_posture.copy()),
            env: Some(bp.env.copy()),
            mcp,
            allow_credentials: copy_strings(&bp.allow_credentials),
            discovery: DiscoveryLayer {
                auto_widen: copy_patterns(&bp.discovery.auto_widen),
                provenance: NameMap::new(),
            },
        }
    }
}

/// The layer a full blueprint contributes.
pub open spec fn full_layer(b: BlueprintModel) -> LayerModel {
    LayerModel {
        read_mode: Some(b.fs.read_mode),
        reads: b.fs.reads,
        writes: b.fs.writes,
        writes_no_create: b.fs.writes_no_create,
        subtract: b.fs.subtract,
        write_subtract: b.fs.write_subtract,
        net: Some(b.net),
        exec_posture: Some(b.exec_posture),
        env: Some(b.env),
        mcp: b.mcp,
        allow_credentials: b.allow_credentials,
        auto_widen: b.auto_widen,
    }
}

/// Layering one complete blueprint over the fail-closed baseline changes nothing: the merge of
/// the single layer `from_blueprint(b)` is `b`'s canonical form.
pub proof fn merging_a_full_layer_canonicalizes(b: BlueprintModel, r: BlueprintModel, c: BlueprintModel)
    requires
        names_sorted(map_keys(b.mcp)),
        merged_of(r, seq![full_layer(b)]),
        blueprint_canonical_of(c, b),
    ensures
        r == c,
{
    let ls = seq![full_layer(b)];
    assert(ls.drop_last() =~= Seq::<LayerModel>::empty());
    assert(ls.last() == full_layer(b));
    reveal_with_fuel(stacked_paths, 2);
    reveal_with_fuel(stacked_credentials, 2);
    assert(stacked_paths(ls, PathField::Reads) =~= b.fs.reads);
    assert(stacked_paths(ls, PathField::Writes) =~= b.fs.writes);
    assert(stacked_paths(ls, PathField::WritesNoCreate) =~= b.fs.writes_no_create);
    assert(stacked_paths(ls, PathField::Subtract) =~= b.fs.subtract);
    assert(stacked_paths(ls, PathField::WriteSubtract) =~= b.fs.write_subtract);
    assert(stacked_paths(ls, PathField::AutoWiden) =~= b.auto_widen);
    assert(stacked_credentials(ls) =~= b.allow_credentials);
    reveal_with_fuel(merged_server, 2);
    assert forall|k: Seq<char>| merged_server(ls, k) == map_get(b.mcp, k) by {
        assert(ls.last().mcp == b.mcp);
    }
    crate::blueprint::canonical_form_is_unique(r, c, b);
}

/// Merging the empty stack yields the fail-closed floor in canonical form.
pub proof fn empty_stack_is_the_floor(r: BlueprintModel, c: BlueprintModel)
    requires
        merged_of(r, Seq::<LayerModel>::empty()),
        blueprint_canonical_of(c, empty_blueprint()),
    ensures
        r == c,
{
    crate::blueprint::canonical_form_is_unique(r, c, empty_blueprint());
}

} // verus!
