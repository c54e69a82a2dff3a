//! The first-generation capability spec: absolute path patterns only (no any-depth forms), and a
//! spec of filesystem reads, writes and subtract holes, a network posture, an exec posture and MCP
//! server policies. Its narrowing is the blueprint's, restricted to these fields.

use vstd::prelude::*;
pub use crate::path::PathError;
use crate::blueprint::{blueprint_canonical_of, BlueprintModel, DiscoveryBlueprint, EnvModel, EnvPosture, ExecModel, FsModel, McpPolicy, NetPosture, ReadMode};
use crate::names::{map_keys, names_sorted, NameMap};
use crate::narrow::narrowed_of;
use crate::path::{is_absolute, norm_abs, slash, slash_globstar, strip_subtree, PathErrorModel, PatternModel};
use crate::path_set::{canonical_set_of, pats_view};
use crate::text::{chars_of, string_of};

verus! {

/// An absolute path pattern with an optional `/**` subtree marker.
#[derive(Clone, Debug, PartialEq, Eq)]
pub struct PathPattern {
    inner: crate::path::PathPattern,
}

impl View for PathPattern {
    type V = PatternModel;

    closed spec fn view(&self) -> PatternModel {
        self.inner@
    }
}

/// What `PathPattern::parse` yields: the input with a trailing `/**` stripped (`/**` alone is the
/// root subtree) must be absolute and must not climb above the root.
pub open spec fn spec_parse_model(s: Seq<char>) -> Result<PatternModel, PathErrorModel> {
    if s.len() == 0 {
        Err(PathErrorModel::Empty)
    } else {
        let (path_part, subtree) = if s == slash_globstar() {
            (slash(), true)
        } else {
            strip_subtree(s)
        };
        if !is_absolute(path_part) {
            Err(PathErrorModel::NotAbsolute(s))
        } else {
            match norm_abs(path_part) {
                None => Err(PathErrorModel::EscapesRoot(s)),
                Some(b) => Ok(PatternModel { base: b, subtree, any_depth: false, anchor: None }),
            }
        }
    }
}

pub open spec fn spec_parse_view(r: Result<PathPattern, PathError>) -> Result<PatternModel, PathErrorModel> {
    match r {
        Ok(p) => Ok(p@),
        Err(e) => Err(e@),
    }
}

impl PathPattern {
    pub fn parse(input: &str) -> (r: Result<PathPattern, PathError>)
        ensures
            spec_parse_view(r) == spec_parse_model(input@),
    {
        let s = chars_of(input);
        if s.len() == 0 {
            return Err(PathError::Empty);
        }
        let (path_part, subtree) = if crate::path::is_slash_globstar(s.as_slice()) {
            let v = vec!['/'];
            assert(v@ =~= slash());
            (v, true)
        } else {
            crate::path::strip_subtree_exec(s.as_slice())
        };
        if path_part.len() == 0 || path_part[0] != '/' {
            return Err(PathError::NotAbsolute(string_of(s.as_slice())));
        }
        match crate::path::normalize_absolute(path_part.as_slice()) {
            None => Err(PathError::EscapesRoot(string_of(s.as_slice()))),
            Some(b) => Ok(PathPattern { inner: crate::path::PathPattern::absolute(b, subtree) }),
        }
    }

    /// The base path.
    pub fn base(&self) -> (r: String)
        ensures
            r@ == (if self@.any_depth { crate::path::join(self@.base) } else { crate::path::render_abs(self@.base) }),
    {
        self.inner.base()
    }

    pub fn is_subtree(&self) -> (r: bool)
        ensures
            r == self@.subtree,
    {
        self.inner.is_subtree()
    }

    /// Round-trips through `parse`.
    pub fn canonical(&self) -> (r: String)
        ensures
            r@ == crate::path::canonical_model(self@),
    {
        self.inner.canonical()
    }

    /// A subtree covers any path at or below its base; a literal covers only the identical
    /// literal.
    pub fn covers(&self, other: &PathPattern) -> (r: bool)
        ensures
            r == crate::path::covers_model(self@, other@),
    {
        self.inner.covers(&other.inner)
    }

    fn copy(&self) -> (r: PathPattern)
        ensures
            r@ == self@,
    {
        PathPattern { inner: self.inner.copy() }
    }
}

pub open spec fn spec_pats_view(v: Seq<PathPattern>) -> Seq<PatternModel> {
    v.map_values(|p: PathPattern| p@)
}

fn unwrap_all(v: &[PathPattern]) -> (r: Vec<crate::path::PathPattern>)
    ensures
        pats_view(r@) == spec_pats_view(v@),
{
    let mut out: Vec<crate::path::PathPattern> = Vec::new();
    let mut i: usize = 0;
    while i < v.len()
        invariant
            i <= v.len(),
            pats_view(out@) == spec_pats_view(v@).take(i as int),
        decreases v.len() - i,
    {
        let p = v[i].inner.copy();
        let ghost before = pats_view(out@);
        out.push(p);
        assert(pats_view(out@) =~= before.push(p@));
        assert(spec_pats_view(v@).take(i + 1) =~= spec_pats_view(v@).take(i as int).push(v@[i as int]@));
        i = i + 1;
    }
    assert(spec_pats_view(v@).take(v.len() as int) =~= spec_pats_view(v@));
    out
}

fn wrap_all(v: Vec<crate::path::PathPattern>) -> (r: Vec<PathPattern>)
    ensures
        spec_pats_view(r@) == pats_view(v@),
{
    let mut out: Vec<PathPattern> = Vec::new();
    let mut i: usize = 0;
    while i < v.len()
        invariant
            i <= v.len(),
            spec_pats_view(out@) == pats_view(v@).take(i as int),
        decreases v.len() - i,
    {
        let p = PathPattern { inner: v[i].copy() };
        let ghost before = spec_pats_view(out@);
        out.push(p);
        assert(spec_pats_view(out@) =~= before.push(p@));
        assert(pats_view(v@).take(i + 1) =~= pats_view(v@).take(i as int).push(v@[i as int]@));
        i = i + 1;
    }
    assert(pats_view(v@).take(v.len() as int) =~= pats_view(v@));
    out
}

/// Sorted, deduplicated, and without the patterns another member covers. Idempotent and
/// independent of the input order.
pub fn canonicalize_set(patterns: &[PathPattern]) -> (r: Vec<PathPattern>)
    ensures
        canonical_set_of(spec_pats_view(r@), spec_pats_view(patterns@)),
{
    let raw = unwrap_all(patterns);
    wrap_all(crate::path_set::canonicalize_set(raw.as_slice()))
}

#[derive(Clone, Debug, PartialEq, Eq)]
pub enum ExecPosture {
    Unrestricted,
    Allowlist(Vec<PathPattern>),
}

/// The filesystem part of a spec.
#[derive(Clone, Debug, PartialEq, Eq)]
pub struct FsSpec {
    pub read_mode: ReadMode,
    pub reads: Vec<PathPattern>,
    pub writes: Vec<PathPattern>,
    /// Sensitive paths denied even under a broad grant.
    pub subtract: Vec<PathPattern>,
}

impl Default for FsSpec {
    fn default() -> (r: FsSpec)
        ensures
            r.read_mode == ReadMode::Closed,
            r.reads@.len() == 0 && r.writes@.len() == 0 && r.subtract@.len() == 0,
    {
        FsSpec { read_mode: ReadMode::Closed, reads: Vec::new(), writes: Vec::new(), subtract: Vec::new() }
    }
}

/// A capability spec.
#[derive(Clone, Debug, PartialEq, Eq)]
pub struct Spec {
    pub fs: FsSpec,
    pub net: NetPosture,
    /// What the confined process may execute (`exec` in the text form).
    pub exec_posture: ExecPosture,
    pub mcp: NameMap<McpPolicy>,
}

impl View for Spec {
    type V = BlueprintModel;

    /// A spec as the blueprint with the same fields and nothing else.
    open spec fn view(&self) -> BlueprintModel {
        BlueprintModel {
            fs: FsModel {
                read_mode: self.fs.read_mode,
                reads: spec_pats_view(self.fs.reads@),
                writes: spec_pats_view(self.fs.writes@),
                writes_no_create: Seq::empty(),
                subtract: spec_pats_view(self.fs.subtract@),
                write_subtract: Seq::empty(),
            },
            net: self.net@,
            exec_posture: match self.exec_posture {
                ExecPosture::Unrestricted => ExecModel::Unrestricted,
                ExecPosture::Allowlist(ps) => ExecModel::Allowlist(spec_pats_view(ps@)),
            },
            env: EnvModel::Passthrough,
            mcp: self.mcp@,
            allow_credentials: Seq::empty(),
            auto_widen: Seq::empty(),
        }
    }
}

impl Spec {
    /// The fail-closed floor: nothing readable or writable, net denied, exec unrestricted, no MCP.
    pub fn empty() -> (r: Spec)
        ensures
            r@ == crate::blueprint::empty_blueprint(),
    {
        let r = Spec {
            fs: FsSpec::default(),
            net: NetPosture::Deny,
            exec_posture: ExecPosture::Unrestricted,
            mcp: NameMap::new(),
        };
        assert(r@.fs.reads =~= Seq::<PatternModel>::empty());
        assert(r@.fs.writes =~= Seq::<PatternModel>::empty());
        assert(r@.fs.subtract =~= Seq::<PatternModel>::empty());
        r
    }

    fn to_blueprint(&self) -> (r: crate::blueprint::Blueprint)
        ensures
            r@ == self@,
    {
        let mut b = crate::blueprint::Blueprint::empty();
        b.fs.read_mode = self.fs.read_mode;
        b.fs.reads = unwrap_all(self.fs.reads.as_slice());
        b.fs.writes = unwrap_all(self.fs.writes.as_slice());
        b.fs.subtract = unwrap_all(self.fs.subtract.as_slice());
        b.net = self.net.copy();
        b.exec_posture = match &self.exec_posture {
            ExecPosture::Unrestricted => crate::blueprint::ExecPosture::Unrestricted,
            ExecPosture::Allowlist(ps) => crate::blueprint::ExecPosture::Allowlist(unwrap_all(ps.as_slice())),
        };
        b.mcp = crate::blueprint::copy_servers(&self.mcp);
        b
    }

    fn from_blueprint(b: crate::blueprint::Blueprint) -> (r: Spec)
        ensures
            r@.fs.read_mode == b@.fs.read_mode,
            r@.fs.reads == b@.fs.reads,
            r@.fs.writes == b@.fs.writes,
            r@.fs.subtract == b@.fs.subtract,
            r@.net == b@.net,
            r@.exec_posture == b@.exec_posture,
            r@.mcp == b@.mcp,
    {
        let exec_posture = match b.exec_posture {
            crate::blueprint::ExecPosture::Unrestricted => ExecPosture::Unrestricted,
            crate::blueprint::ExecPosture::Allowlist(ps) => ExecPosture::Allowlist(wrap_all(ps)),
        };
        Spec {
            fs: FsSpec {
                read_mode: b.fs.read_mode,
                reads: wrap_all(b.fs.reads),
                writes: wrap_all(b.fs.writes),
                subtract: wrap_all(b.fs.subtract),
            },
            net: b.net,
            exec_posture,
            mcp: b.mcp,
        }
    }

    /// The canonical form: equal capabilities canonicalize identically.
    pub fn canonicalize(&self) -> (r: Spec)
        ensures
            blueprint_canonical_of(r@, self@),
    {
        let b = self.to_blueprint();
        let c = b.canonicalize();
        let ghost cv = c@;
        let r = Spec::from_blueprint(c);
        proof {
            lemma_empty_canonical();
            assert(r@.fs =~= cv.fs) by {
                crate::path_set::canonicalize_set_is_idempotent(Seq::empty(), Seq::empty(), cv.fs.writes_no_create);
            }
        }
        r
    }

    /// Narrowing: the result is a subset of both `self` (the parent) and `requested`.
    pub fn narrow(&self, requested: &Spec) -> (r: Spec)
        ensures
            narrowed_of(r@, self@, requested@),
    {
        let p = self.to_blueprint();
        let q = requested.to_blueprint();
        let n = p.narrow(&q);
        let ghost nv = n@;
        let r = Spec::from_blueprint(n);
        proof {
            lemma_empty_canonical();
        }
        r
    }
}

/// The canonical form of an empty pattern list is empty, and so is the common part of two empty
/// name lists.
proof fn lemma_empty_canonical()
    ensures
        forall|r: Seq<PatternModel>| #[trigger] canonical_set_of(r, Seq::<PatternModel>::empty()) ==> r == Seq::<PatternModel>::empty(),
        forall|r: Seq<PatternModel>| #[trigger] canonical_set_of(r, Seq::<PatternModel>::empty() + Seq::<PatternModel>::empty()) ==> r == Seq::<PatternModel>::empty(),
        forall|r: Seq<PatternModel>| #[trigger] canonical_set_of(r, crate::narrow::grants_meet(Seq::<PatternModel>::empty(), Seq::<PatternModel>::empty())) ==> r == Seq::<PatternModel>::empty(),
        forall|r: Seq<Seq<char>>| #[trigger] crate::blueprint::names_canonical_of(r, crate::names::names_common(Seq::<Seq<char>>::empty(), Seq::<Seq<char>>::empty())) ==> r == Seq::<Seq<char>>::empty(),
        forall|r: Seq<Seq<char>>| #[trigger] crate::blueprint::names_canonical_of(r, Seq::<Seq<char>>::empty()) ==> r == Seq::<Seq<char>>::empty(),
{
    assert forall|r: Seq<PatternModel>| #[trigger] canonical_set_of(r, Seq::<PatternModel>::empty()) implies r == Seq::<PatternModel>::empty() by {
        if r.len() > 0 {
            assert(r.contains(r[0]));
        }
    }
    assert(Seq::<PatternModel>::empty() + Seq::<PatternModel>::empty() =~= Seq::<PatternModel>::empty());
    assert(crate::narrow::grants_meet(Seq::<PatternModel>::empty(), Seq::<PatternModel>::empty()) =~= Seq::<PatternModel>::empty());
    assert forall|r: Seq<Seq<char>>| #[trigger] crate::blueprint::names_canonical_of(r, Seq::<Seq<char>>::empty()) implies r == Seq::<Seq<char>>::empty() by {
        if r.len() > 0 {
            assert(r.contains(r[0]));
        }
    }
    assert(crate::names::names_common(Seq::<Seq<char>>::empty(), Seq::<Seq<char>>::empty()) =~= Seq::<Seq<char>>::empty());
}

} // verus!
