//! The capability blueprint: pure data describing what a confined process may touch, its
//! canonical form, and the environment postures applied to a confined child.

use vstd::prelude::*;
use crate::names::{canonical_names, canonical_ports, copy_string, copy_strings, lemma_keys_distinct, lemma_map_get_at, lemma_map_get_some, map_get, map_keys, names_contain, names_sorted, ports_sorted, strs_view, NameMap};
use crate::path::{PathPattern, PatternModel};
use crate::path_set::{canonical_set_of, canonicalize_set, copy_patterns, pats_view};
use crate::text::{chars_of, ends_with, has_prefix, starts_with};

verus! {

/// `Closed` denies by default (only grants are readable); `AmbientMinusSubtract` allows broad
/// ambient reads minus the `subtract` set.
#[derive(Clone, Copy, Debug, PartialEq, Eq, Structural)]
pub enum ReadMode {
    Closed,
    AmbientMinusSubtract,
}

impl Default for ReadMode {
    fn default() -> (r: ReadMode)
        ensures
            r == ReadMode::Closed,
    {
        ReadMode::Closed
    }
}

/// The reads posture in flat verb rules: `strict-unveil` (also written `unveil`) starts from an
/// empty universe, `subtractive` from ambient reads minus the floor.
#[derive(Clone, Copy, Debug, PartialEq, Eq, Structural)]
pub enum Mode {
    StrictUnveil,
    Subtractive,
}

/// The read mode a reads posture stands for.
pub open spec fn mode_read_mode(m: Mode) -> ReadMode {
    match m {
        Mode::StrictUnveil => ReadMode::Closed,
        Mode::Subtractive => ReadMode::AmbientMinusSubtract,
    }
}

impl Mode {
    pub fn read_mode(self) -> (r: ReadMode)
        ensures
            r == mode_read_mode(self),
    {
        match self {
            Mode::StrictUnveil => ReadMode::Closed,
            Mode::Subtractive => ReadMode::AmbientMinusSubtract,
        }
    }
}

#[derive(Clone, Copy, Debug, PartialEq, Eq, Structural)]
pub enum Gate {
    Allow,
    Deny,
}

impl Default for Gate {
    fn default() -> (r: Gate)
        ensures
            r == Gate::Deny,
    {
        Gate::Deny
    }
}

/// `Deny` is the fail-closed default; `Ports` allows direct TCP connect to a port set only where
/// the platform can enforce it.
#[derive(Clone, Debug, PartialEq, Eq)]
pub enum NetPosture {
    Deny,
    Ports(Vec<u16>),
}

pub enum NetModel {
    Deny,
    Ports(Seq<u16>),
}

impl View for NetPosture {
    type V = NetModel;

    open spec fn view(&self) -> NetModel {
        match self {
            NetPosture::Deny => NetModel::Deny,
            NetPosture::Ports(p) => NetModel::Ports(p@),
        }
    }
}

impl Default for NetPosture {
    fn default() -> (r: NetPosture)
        ensures
            r@ == NetModel::Deny,
    {
        NetPosture::Deny
    }
}

#[derive(Clone, Debug, PartialEq, Eq)]
pub enum ExecPosture {
    Unrestricted,
    Allowlist(Vec<PathPattern>),
}

pub enum ExecModel {
    Unrestricted,
    Allowlist(Seq<PatternModel>),
}

impl View for ExecPosture {
    type V = ExecModel;

    open spec fn view(&self) -> ExecModel {
        match self {
            ExecPosture::Unrestricted => ExecModel::Unrestricted,
            ExecPosture::Allowlist(p) => ExecModel::Allowlist(pats_view(p@)),
        }
    }
}

impl Default for ExecPosture {
    fn default() -> (r: ExecPosture)
        ensures
            r@ == ExecModel::Unrestricted,
    {
        ExecPosture::Unrestricted
    }
}

/// Overrides for a scrubbing environment posture: `allow` names are always kept, `deny` names
/// are always dropped, anything else is dropped only if it looks like a secret.
#[derive(Clone, Debug, PartialEq, Eq)]
pub struct EnvScrub {
    pub allow: Vec<String>,
    pub deny: Vec<String>,
}

pub struct ScrubModel {
    pub allow: Seq<Seq<char>>,
    pub deny: Seq<Seq<char>>,
}

impl View for EnvScrub {
    type V = ScrubModel;

    open spec fn view(&self) -> ScrubModel {
        ScrubModel { allow: strs_view(self.allow@), deny: strs_view(self.deny@) }
    }
}

impl Default for EnvScrub {
    fn default() -> (r: EnvScrub)
        ensures
            r@.allow.len() == 0,
            r@.deny.len() == 0,
    {
        EnvScrub { allow: Vec::new(), deny: Vec::new() }
    }
}

/// How the confined child's environment is built.
#[derive(Clone, Debug, PartialEq, Eq)]
pub enum EnvPosture {
    /// Inherit the whole parent environment.
    Passthrough,
    /// Only these names survive.
    Allowlist(Vec<String>),
    /// Drop secret-shaped variables, with explicit `allow`/`deny` name overrides.
    Scrub(EnvScrub),
}

pub enum EnvModel {
    Passthrough,
    Allowlist(Seq<Seq<char>>),
    Scrub(ScrubModel),
}

impl View for EnvPosture {
    type V = EnvModel;

    open spec fn view(&self) -> EnvModel {
        match self {
            EnvPosture::Passthrough => EnvModel::Passthrough,
            EnvPosture::Allowlist(n) => EnvModel::Allowlist(strs_view(n@)),
            EnvPosture::Scrub(s) => EnvModel::Scrub(s@),
        }
    }
}

impl Default for EnvPosture {
    fn default() -> (r: EnvPosture)
        ensures
            r@ == EnvModel::Passthrough,
    {
        EnvPosture::Passthrough
    }
}

/// `Allow` grants exactly the listed names; everything else is absent from listings and cannot
/// be invoked.
#[derive(Clone, Debug, PartialEq, Eq)]
pub enum Visibility {
    AllowAll,
    Allow(Vec<String>),
    Deny,
}

pub enum VisibilityModel {
    AllowAll,
    Allow(Seq<Seq<char>>),
    Deny,
}

impl View for Visibility {
    type V = VisibilityModel;

    open spec fn view(&self) -> VisibilityModel {
        match self {
            Visibility::AllowAll => VisibilityModel::AllowAll,
            Visibility::Allow(n) => VisibilityModel::Allow(strs_view(n@)),
            Visibility::Deny => VisibilityModel::Deny,
        }
    }
}

impl Default for Visibility {
    fn default() -> (r: Visibility)
        ensures
            r@ == VisibilityModel::Deny,
    {
        Visibility::Deny
    }
}

pub open spec fn visibility_permits(v: VisibilityModel, name: Seq<char>) -> bool {
    match v {
        VisibilityModel::AllowAll => true,
        VisibilityModel::Allow(names) => names.contains(name),
        VisibilityModel::Deny => false,
    }
}

impl Visibility {
    pub fn permits(&self, name: &str) -> (r: bool)
        ensures
            r == visibility_permits(self@, name@),
    {
        match self {
            Visibility::AllowAll => true,
            Visibility::Allow(names) => names_contain(names, name),
            Visibility::Deny => false,
        }
    }

    pub fn copy(&self) -> (r: Visibility)
        ensures
            r@ == self@,
    {
        match self {
            Visibility::AllowAll => Visibility::AllowAll,
            Visibility::Allow(n) => Visibility::Allow(copy_strings(n)),
            Visibility::Deny => Visibility::Deny,
        }
    }
}

/// Per-MCP-server visibility policy the gateway enforces.
#[derive(Clone, Debug, PartialEq, Eq)]
pub struct McpPolicy {
    pub tools: Visibility,
    pub resources: Visibility,
    pub prompts: Visibility,
    pub sampling: Gate,
    pub elicitation: Gate,
}

pub struct McpModel {
    pub tools: VisibilityModel,
    pub resources: VisibilityModel,
    pub prompts: VisibilityModel,
    pub sampling: Gate,
    pub elicitation: Gate,
}

impl View for McpPolicy {
    type V = McpModel;

    open spec fn view(&self) -> McpModel {
        McpModel {
            tools: self.tools@,
            resources: self.resources@,
            prompts: self.prompts@,
            sampling: self.sampling,
            elicitation: self.elicitation,
        }
    }
}

impl Default for McpPolicy {
    /// Default-deny the whole surface: an unlisted server grants nothing.
    fn default() -> (r: McpPolicy)
        ensures
            r@ == (McpModel {
                tools: VisibilityModel::Deny,
                resources: VisibilityModel::Deny,
                prompts: VisibilityModel::Deny,
                sampling: Gate::Deny,
                elicitation: Gate::Deny,
            }),
    {
        McpPolicy {
            tools: Visibility::Deny,
            resources: Visibility::Deny,
            prompts: Visibility::Deny,
            sampling: Gate::Deny,
            elicitation: Gate::Deny,
        }
    }
}

impl McpPolicy {
    pub fn copy(&self) -> (r: McpPolicy)
        ensures
            r@ == self@,
    {
        McpPolicy {
            tools: self.tools.copy(),
            resources: self.resources.copy(),
            prompts: self.prompts.copy(),
            sampling: self.sampling,
            elicitation: self.elicitation,
        }
    }
}

/// `write` grants imply `read`; `subtract` holes win over grants.
#[derive(Clone, Debug, PartialEq, Eq)]
pub struct FsBlueprint {
    pub read_mode: ReadMode,
    pub reads: Vec<PathPattern>,
    pub writes: Vec<PathPattern>,
    /// Read and modify existing files, but create none (the `modify` verb).
    pub writes_no_create: Vec<PathPattern>,
    /// Sensitive paths denied even under a broad grant (read and write).
    pub subtract: Vec<PathPattern>,
    /// Tamper vectors denied for write but left readable.
    pub write_subtract: Vec<PathPattern>,
}

pub struct FsModel {
    pub read_mode: ReadMode,
    pub reads: Seq<PatternModel>,
    pub writes: Seq<PatternModel>,
    pub writes_no_create: Seq<PatternModel>,
    pub subtract: Seq<PatternModel>,
    pub write_subtract: Seq<PatternModel>,
}

impl View for FsBlueprint {
    type V = FsModel;

    open spec fn view(&self) -> FsModel {
        FsModel {
            read_mode: self.read_mode,
            reads: pats_view(self.reads@),
            writes: pats_view(self.writes@),
            writes_no_create: pats_view(self.writes_no_create@),
            subtract: pats_view(self.subtract@),
            write_subtract: pats_view(self.write_subtract@),
        }
    }
}

pub open spec fn empty_fs() -> FsModel {
    FsModel {
        read_mode: ReadMode::Closed,
        reads: Seq::empty(),
        writes: Seq::empty(),
        writes_no_create: Seq::empty(),
        subtract: Seq::empty(),
        write_subtract: Seq::empty(),
    }
}

impl Default for FsBlueprint {
    fn default() -> (r: FsBlueprint)
        ensures
            r@ == empty_fs(),
    {
        let r = FsBlueprint {
            read_mode: ReadMode::Closed,
            reads: Vec::new(),
            writes: Vec::new(),
            writes_no_create: Vec::new(),
            subtract: Vec::new(),
            write_subtract: Vec::new(),
        };
        assert(pats_view(r.reads@) =~= Seq::<PatternModel>::empty());
        assert(pats_view(r.writes@) =~= Seq::<PatternModel>::empty());
        assert(pats_view(r.writes_no_create@) =~= Seq::<PatternModel>::empty());
        assert(pats_view(r.subtract@) =~= Seq::<PatternModel>::empty());
        assert(pats_view(r.write_subtract@) =~= Seq::<PatternModel>::empty());
        r
    }
}

/// The merged discovery posture: the operator-drawn zone inside which a learning run may
/// self-grant. Empty by default.
#[derive(Clone, Debug, PartialEq, Eq)]
pub struct DiscoveryBlueprint {
    pub auto_widen: Vec<PathPattern>,
}

impl Default for DiscoveryBlueprint {
    fn default() -> (r: DiscoveryBlueprint)
        ensures
            pats_view(r.auto_widen@).len() == 0,
    {
        DiscoveryBlueprint { auto_widen: Vec::new() }
    }
}

/// What a confined process may touch. MCP servers are kept in name order.
#[derive(Clone, Debug, PartialEq, Eq)]
pub struct Blueprint {
    pub fs: FsBlueprint,
    pub net: NetPosture,
    /// What the confined process may execute (`exec` in the blueprint's text form).
    pub exec_posture: ExecPosture,
    pub env: EnvPosture,
    pub mcp: NameMap<McpPolicy>,
    /// Credential types deliberately let through the catalog floor; the only mechanism that
    /// lifts a typed entry.
    pub allow_credentials: Vec<String>,
    pub discovery: DiscoveryBlueprint,
}

pub struct BlueprintModel {
    pub fs: FsModel,
    pub net: NetModel,
    pub exec_posture: ExecModel,
    pub env: EnvModel,
    pub mcp: Seq<(Seq<char>, McpModel)>,
    pub allow_credentials: Seq<Seq<char>>,
    pub auto_widen: Seq<PatternModel>,
}

impl View for Blueprint {
    type V = BlueprintModel;

    open spec fn view(&self) -> BlueprintModel {
        BlueprintModel {
            fs: self.fs@,
            net: self.net@,
            exec_posture: self.exec_posture@,
            env: self.env@,
            mcp: self.mcp@,
            allow_credentials: strs_view(self.allow_credentials@),
            auto_widen: pats_view(self.discovery.auto_widen@),
        }
    }
}

/// The fail-closed floor: nothing readable or writable, net denied, exec unrestricted, env
/// passthrough, no MCP.
pub open spec fn empty_blueprint() -> BlueprintModel {
    BlueprintModel {
        fs: empty_fs(),
        net: NetModel::Deny,
        exec_posture: ExecModel::Unrestricted,
        env: EnvModel::Passthrough,
        mcp: Seq::empty(),
        allow_credentials: Seq::empty(),
        auto_widen: Seq::empty(),
    }
}

impl NetPosture {
    pub fn copy(&self) -> (r: NetPosture)
        ensures
            r@ == self@,
    {
        match self {
            NetPosture::Deny => NetPosture::Deny,
            NetPosture::Ports(p) => {
                let q = p.clone();
                assert(q@ =~= p@);
                NetPosture::Ports(q)
            },
        }
    }
}

impl ExecPosture {
    pub fn copy(&self) -> (r: ExecPosture)
        ensures
            r@ == self@,
    {
        match self {
            ExecPosture::Unrestricted => ExecPosture::Unrestricted,
            ExecPosture::Allowlist(p) => ExecPosture::Allowlist(copy_patterns(p)),
        }
    }
}

impl EnvScrub {
    pub fn copy(&self) -> (r: EnvScrub)
        ensures
            r@ == self@,
    {
        EnvScrub { allow: copy_strings(&self.allow), deny: copy_strings(&self.deny) }
    }
}

impl EnvPosture {
    pub fn copy(&self) -> (r: EnvPosture)
        ensures
            r@ == self@,
    {
        match self {
            EnvPosture::Passthrough => EnvPosture::Passthrough,
            EnvPosture::Allowlist(n) => EnvPosture::Allowlist(copy_strings(n)),
            EnvPosture::Scrub(s) => EnvPosture::Scrub(s.copy()),
        }
    }
}

impl FsBlueprint {
    pub fn copy(&self) -> (r: FsBlueprint)
        ensures
            r@ == self@,
    {
        FsBlueprint {
            read_mode: self.read_mode,
            reads: copy_patterns(&self.reads),
            writes: copy_patterns(&self.writes),
            writes_no_create: copy_patterns(&self.writes_no_create),
            subtract: copy_patterns(&self.subtract),
            write_subtract: copy_patterns(&self.write_subtract),
        }
    }
}

/// A copy of a server table, entry for entry.
pub fn copy_servers(m: &NameMap<McpPolicy>) -> (r: NameMap<McpPolicy>)
    ensures
        r@ == m@,
{
    let n = m.len();
    let ghost mv = m@;
    let mut out: NameMap<McpPolicy> = NameMap::new();
    let mut i: usize = 0;
    assert(out@ =~= mv.take(0));
    while i < n
        invariant
            n == mv.len(),
            mv == m@,
            names_sorted(map_keys(mv)),
            i <= n,
            out@ == mv.take(i as int),
        decreases n - i,
    {
        proof {
            if i > 0 {
                assert(map_keys(mv)[i - 1] == out@.last().0);
                assert(crate::text::chars_lt(map_keys(mv)[i - 1], map_keys(mv)[i as int]));
            }
        }
        out.push_last(crate::names::copy_string(m.key(i)), m.value(i).copy());
        assert(out@ =~= mv.take(i + 1));
        i = i + 1;
    }
    assert(mv.take(n as int) =~= mv);
    out
}

impl Blueprint {
    /// The fail-closed floor.
    pub fn empty() -> (r: Blueprint)
        ensures
            r@ == empty_blueprint(),
    {
        let r = Blueprint {
            fs: FsBlueprint::default(),
            net: NetPosture::Deny,
            exec_posture: ExecPosture::Unrestricted,
            env: EnvPosture::Passthrough,
            mcp: NameMap::new(),
            allow_credentials: Vec::new(),
            discovery: DiscoveryBlueprint { auto_widen: Vec::new() },
        };
        assert(r@.allow_credentials =~= Seq::<Seq<char>>::empty());
        assert(r@.auto_widen =~= Seq::<PatternModel>::empty());
        r
    }

    /// The policy enforced during a permissive recording: open ambient reads plus an open `/**`
    /// write grant. The credential floor is still denied by the compiler, and its deny wins over
    /// the broad write, so a recording can never read or write a credential.
    pub fn floor_only_permissive() -> (r: Blueprint)
        ensures
            r@ == (BlueprintModel {
                fs: FsModel {
                    read_mode: ReadMode::AmbientMinusSubtract,
                    reads: Seq::empty(),
                    writes: seq![PathPattern::root_subtree_model()],
                    writes_no_create: Seq::empty(),
                    subtract: Seq::empty(),
                    write_subtract: Seq::empty(),
                },
                net: NetModel::Deny,
                exec_posture: ExecModel::Unrestricted,
                env: EnvModel::Passthrough,
                mcp: Seq::empty(),
                allow_credentials: Seq::empty(),
                auto_widen: Seq::empty(),
            }),
    {
        let mut r = Blueprint::empty();
        r.fs.read_mode = ReadMode::AmbientMinusSubtract;
        r.fs.writes.push(PathPattern::root_subtree());
        assert(r@.fs.writes =~= seq![PathPattern::root_subtree_model()]);
        r
    }
}


// ---------------------------------------------------------------------------------------------
// Secret shapes

/// `s` with ASCII lowercase letters raised to uppercase.
pub open spec fn ascii_upper(s: Seq<char>) -> Seq<char> {
    s.map_values(|c: char| if 'a' <= c && c <= 'z' { ((c as u32) - 32) as char } else { c })
}

/// Does `needle` occur in `s`?
pub open spec fn contains_sub(s: Seq<char>, needle: Seq<char>) -> bool {
    exists|i: int| 0 <= i && i + needle.len() <= s.len() && #[trigger] s.subrange(i, i + needle.len()) == needle
}

/// The number of occurrences of `c` in `s`.
pub open spec fn count_char(s: Seq<char>, c: char) -> nat
    decreases s.len(),
{
    if s.len() == 0 {
        0
    } else {
        count_char(s.drop_last(), c) + if s.last() == c { 1nat } else { 0nat }
    }
}

/// A variable name marks a secret when, uppercased, it contains one of the secret markers.
pub open spec fn name_is_secret(name: Seq<char>) -> bool {
    let u = ascii_upper(name);
    contains_sub(u, "TOKEN"@) || contains_sub(u, "SECRET"@) || contains_sub(u, "PASSWORD"@)
        || contains_sub(u, "PASSWD"@) || contains_sub(u, "APIKEY"@) || contains_sub(u, "API_KEY"@)
        || contains_sub(u, "ACCESS_KEY"@) || contains_sub(u, "PRIVATE_KEY"@) || contains_sub(
        u,
        "AUTH"@,
    ) || contains_sub(u, "CREDENTIAL"@)
}

/// Three base64url segments whose header begins `eyJ` (the encoding of `{"`).
pub open spec fn is_jwt(v: Seq<char>) -> bool {
    starts_with(v, "eyJ"@) && count_char(v, '.') == 2
}

/// A value of a high-confidence secret shape: a PEM block, a GitHub or Slack token, an API
/// secret key, an AWS access key id (20 bytes), a Google API key (over 30 bytes), or a JWT.
/// Lengths are UTF-8 byte lengths.
pub open spec fn value_is_secret(v: Seq<char>) -> bool {
    starts_with(v, "-----BEGIN "@) || starts_with(v, "ghp_"@) || starts_with(v, "gho_"@)
        || starts_with(v, "github_pat_"@) || starts_with(v, "xoxb-"@) || starts_with(v, "xoxp-"@)
        || starts_with(v, "sk-"@) || (starts_with(v, "AKIA"@) && byte_len(v) == 20) || (starts_with(
        v,
        "AIza"@,
    ) && byte_len(v) > 30) || is_jwt(v)
}

/// The UTF-8 byte length of a string, as `str::len` reports it.
pub open spec fn byte_len(v: Seq<char>) -> usize {
    vstd::utf8::encode_utf8(v).len() as usize
}

pub open spec fn secret_shaped(name: Seq<char>, value: Seq<char>) -> bool {
    name_is_secret(name) || value_is_secret(value)
}

fn upper_chars(s: &str) -> (r: Vec<char>)
    ensures
        r@ == ascii_upper(s@),
{
    let v = chars_of(s);
    let mut r: Vec<char> = Vec::new();
    let mut i: usize = 0;
    while i < v.len()
        invariant
            v@ == s@,
            i <= v.len(),
            r@ == ascii_upper(s@).take(i as int),
        decreases v.len() - i,
    {
        let c = v[i];
        let u = if 'a' <= c && c <= 'z' {
            let code: u8 = c as u8;
            let shifted: u8 = code - 32;
            shifted as char
        } else {
            c
        };
        r.push(u);
        i = i + 1;
        assert(r@ =~= ascii_upper(s@).take(i as int));
    }
    assert(r@ =~= ascii_upper(s@));
    r
}

/// Does `needle` occur in `s`?
pub fn has_sub(s: &[char], needle: &str) -> (r: bool)
    ensures
        r == contains_sub(s@, needle@),
{
    let n = chars_of(needle);
    if n.len() > s.len() {
        return false;
    }
    let mut i: usize = 0;
    while i <= s.len() - n.len()
        invariant
            n@ == needle@,
            n.len() <= s.len(),
            i <= s.len() - n.len() + 1,
            forall|j: int| 0 <= j < i ==> #[trigger] s@.subrange(j, j + n.len()) != n@,
        decreases s.len() - i,
    {
        let mut k: usize = 0;
        let mut same = true;
        while k < n.len()
            invariant
                n.len() <= s.len(),
                i + n.len() <= s.len(),
                k <= n.len(),
                same == forall|m: int| 0 <= m < k ==> s@[i + m] == n@[m],
            decreases n.len() - k,
        {
            if s[i + k] != n[k] {
                same = false;
            }
            k = k + 1;
        }
        if same {
            assert(s@.subrange(i as int, i + n.len()) =~= n@);
            return true;
        }
        proof {
            let m = choose|m: int| 0 <= m < n.len() && s@[i + m] != n@[m];
            assert(s@.subrange(i as int, i + n.len())[m] != n@[m]);
        }
        i = i + 1;
    }
    false
}

fn count_dots(s: &[char]) -> (r: usize)
    ensures
        r == count_char(s@, '.'),
{
    let mut n: usize = 0;
    let mut i: usize = 0;
    while i < s.len()
        invariant
            i <= s.len(),
            n == count_char(s@.take(i as int), '.'),
            n <= i,
        decreases s.len() - i,
    {
        assert(s@.take(i + 1).drop_last() =~= s@.take(i as int));
        if s[i] == '.' {
            n = n + 1;
        }
        i = i + 1;
    }
    assert(s@.take(s.len() as int) =~= s@);
    n
}

/// Is the value of a high-confidence secret shape?
pub fn env_value_is_secret(v: &str) -> (r: bool)
    ensures
        r == value_is_secret(v@),
{
    let c = chars_of(v);
    let s = c.as_slice();
    has_prefix(s, "-----BEGIN ") || has_prefix(s, "ghp_") || has_prefix(s, "gho_") || has_prefix(
        s,
        "github_pat_",
    ) || has_prefix(s, "xoxb-") || has_prefix(s, "xoxp-") || has_prefix(s, "sk-") || (
    has_prefix(s, "AKIA") && v.len() == 20) || (has_prefix(s, "AIza") && v.len() > 30) || (
    has_prefix(s, "eyJ") && count_dots(s) == 2)
}

/// A variable is secret-shaped if its name carries a secret marker or its value has a secret
/// shape. Coarse by design: the `allow` list handles false positives.
pub fn env_is_secret_shaped(name: &str, value: &str) -> (r: bool)
    ensures
        r == secret_shaped(name@, value@),
{
    let u = upper_chars(name);
    let s = u.as_slice();
    if has_sub(s, "TOKEN") || has_sub(s, "SECRET") || has_sub(s, "PASSWORD") || has_sub(s, "PASSWD")
        || has_sub(s, "APIKEY") || has_sub(s, "API_KEY") || has_sub(s, "ACCESS_KEY") || has_sub(
        s,
        "PRIVATE_KEY",
    ) || has_sub(s, "AUTH") || has_sub(s, "CREDENTIAL") {
        return true;
    }
    env_value_is_secret(value)
}

// ---------------------------------------------------------------------------------------------
// Environment postures

pub open spec fn vars_view(v: Seq<(String, String)>) -> Seq<(Seq<char>, Seq<char>)> {
    v.map_values(|p: (String, String)| (p.0@, p.1@))
}

/// Does the scrub keep the variable? `allow` wins, then `deny`, then the secret shape decides.
pub open spec fn scrub_keeps(s: ScrubModel, name: Seq<char>, value: Seq<char>) -> bool {
    if s.allow.contains(name) {
        true
    } else if s.deny.contains(name) {
        false
    } else {
        !secret_shaped(name, value)
    }
}

/// Does the posture let the variable through to the confined child?
pub open spec fn env_keeps(e: EnvModel, name: Seq<char>, value: Seq<char>) -> bool {
    match e {
        EnvModel::Passthrough => true,
        EnvModel::Allowlist(names) => names.contains(name),
        EnvModel::Scrub(s) => scrub_keeps(s, name, value),
    }
}

/// The variables the posture keeps, in their original order.
pub open spec fn kept_vars(e: EnvModel, vars: Seq<(Seq<char>, Seq<char>)>) -> Seq<(Seq<char>, Seq<char>)>
    decreases vars.len(),
{
    if vars.len() == 0 {
        Seq::empty()
    } else if env_keeps(e, vars.last().0, vars.last().1) {
        kept_vars(e, vars.drop_last()).push(vars.last())
    } else {
        kept_vars(e, vars.drop_last())
    }
}

/// The names of the variables the posture drops, in their original order.
pub open spec fn dropped_vars(e: EnvModel, vars: Seq<(Seq<char>, Seq<char>)>) -> Seq<Seq<char>>
    decreases vars.len(),
{
    if vars.len() == 0 {
        Seq::empty()
    } else if !env_keeps(e, vars.last().0, vars.last().1) {
        dropped_vars(e, vars.drop_last()).push(vars.last().0)
    } else {
        dropped_vars(e, vars.drop_last())
    }
}

/// The posture partitions the environment: every variable is either kept, whole, or has its
/// name listed as dropped, never both, and the two lists together are as long as the input.
pub proof fn env_apply_partitions(e: EnvModel, vars: Seq<(Seq<char>, Seq<char>)>)
    ensures
        kept_vars(e, vars).len() + dropped_vars(e, vars).len() == vars.len(),
        forall|i: int| 0 <= i < vars.len() && env_keeps(e, vars[i].0, vars[i].1) ==> kept_vars(e, vars).contains(#[trigger] vars[i]),
        forall|i: int| 0 <= i < vars.len() && !env_keeps(e, vars[i].0, vars[i].1) ==> dropped_vars(e, vars).contains(#[trigger] vars[i].0),
        forall|v: (Seq<char>, Seq<char>)| #[trigger] kept_vars(e, vars).contains(v) ==> vars.contains(v) && env_keeps(e, v.0, v.1),
        forall|n: Seq<char>| #[trigger] dropped_vars(e, vars).contains(n) ==> exists|i: int| 0 <= i < vars.len() && vars[i].0 == n
            && !env_keeps(e, vars[i].0, vars[i].1),
    decreases vars.len(),
{
    if vars.len() > 0 {
        let init = vars.drop_last();
        let last = vars.last();
        env_apply_partitions(e, init);
        let k0 = kept_vars(e, init);
        let d0 = dropped_vars(e, init);
        let k = kept_vars(e, vars);
        let d = dropped_vars(e, vars);
        assert forall|i: int| 0 <= i < vars.len() && env_keeps(e, vars[i].0, vars[i].1) implies k.contains(#[trigger] vars[i]) by {
            if i < init.len() {
                assert(init[i] == vars[i]);
                assert(k0.contains(init[i]));
                let j = choose|j: int| 0 <= j < k0.len() && k0[j] == init[i];
                if env_keeps(e, last.0, last.1) {
                    assert(k[j] == k0[j]);
                }
            } else {
                assert(k[k.len() - 1] == last);
            }
        }
        assert forall|i: int| 0 <= i < vars.len() && !env_keeps(e, vars[i].0, vars[i].1) implies d.contains(#[trigger] vars[i].0) by {
            if i < init.len() {
                assert(init[i] == vars[i]);
                assert(d0.contains(init[i].0));
                let j = choose|j: int| 0 <= j < d0.len() && d0[j] == init[i].0;
                if !env_keeps(e, last.0, last.1) {
                    assert(d[j] == d0[j]);
                }
            } else {
                assert(d[d.len() - 1] == last.0);
            }
        }
        assert forall|v: (Seq<char>, Seq<char>)| #[trigger] k.contains(v) implies vars.contains(v) && env_keeps(e, v.0, v.1) by {
            let j = choose|j: int| 0 <= j < k.len() && k[j] == v;
            if j < k0.len() {
                assert(k0[j] == k[j]);
                assert(k0.contains(v));
                let q = choose|q: int| 0 <= q < init.len() && init[q] == v;
                assert(vars[q] == v);
            } else {
                assert(vars[vars.len() - 1] == v);
            }
        }
        assert forall|n: Seq<char>| #[trigger] d.contains(n) implies exists|i: int| 0 <= i < vars.len() && vars[i].0 == n
            && !env_keeps(e, vars[i].0, vars[i].1) by {
            let j = choose|j: int| 0 <= j < d.len() && d[j] == n;
            if j < d0.len() {
                assert(d0[j] == d[j]);
                assert(d0.contains(n));
                let q = choose|q: int| 0 <= q < init.len() && init[q].0 == n && !env_keeps(e, init[q].0, init[q].1);
                assert(vars[q] == init[q]);
            } else {
                assert(vars[vars.len() - 1].0 == n);
            }
        }
    }
}

/// A name holding one of the secret markers once upper-cased: `TOKEN`, `SECRET`, `PASSWORD`,
/// `PASSWD`, `APIKEY`, `API_KEY`, `ACCESS_KEY`, `PRIVATE_KEY`, `AUTH` or `CREDENTIAL`.
pub open spec fn carries_secret_marker(name: Seq<char>) -> bool {
    let markers = seq!["TOKEN"@, "SECRET"@, "PASSWORD"@, "PASSWD"@, "APIKEY"@, "API_KEY"@, "ACCESS_KEY"@, "PRIVATE_KEY"@, "AUTH"@, "CREDENTIAL"@];
    exists|m: int| 0 <= m < markers.len() && contains_sub(ascii_upper(name), #[trigger] markers[m])
}

/// A scrub never lets through a variable whose name carries a secret marker unless it allows
/// that name outright: such a variable is dropped from what the child receives and listed among
/// the dropped names, whatever its value.
pub proof fn scrub_drops_secret_named_variables(s: ScrubModel, vars: Seq<(Seq<char>, Seq<char>)>)
    ensures
        forall|name: Seq<char>, value: Seq<char>| carries_secret_marker(name) && !s.allow.contains(name)
            ==> !#[trigger] scrub_keeps(s, name, value),
        forall|v: (Seq<char>, Seq<char>)| #[trigger] kept_vars(EnvModel::Scrub(s), vars).contains(v) && carries_secret_marker(v.0)
            ==> s.allow.contains(v.0),
        forall|i: int| 0 <= i < vars.len() && carries_secret_marker(#[trigger] vars[i].0) && !s.allow.contains(vars[i].0)
            ==> dropped_vars(EnvModel::Scrub(s), vars).contains(vars[i].0),
{
    let markers = seq!["TOKEN"@, "SECRET"@, "PASSWORD"@, "PASSWD"@, "APIKEY"@, "API_KEY"@, "ACCESS_KEY"@, "PRIVATE_KEY"@, "AUTH"@, "CREDENTIAL"@];
    assert forall|name: Seq<char>, value: Seq<char>| carries_secret_marker(name) && !s.allow.contains(name)
        implies !#[trigger] scrub_keeps(s, name, value) by {
        let m = choose|m: int| 0 <= m < markers.len() && contains_sub(ascii_upper(name), #[trigger] markers[m]);
        assert(name_is_secret(name));
    }
    env_apply_partitions(EnvModel::Scrub(s), vars);
}

impl EnvScrub {
    /// Does the scrub keep this variable?
    pub fn keeps(&self, name: &str, value: &str) -> (r: bool)
        ensures
            r == scrub_keeps(self@, name@, value@),
    {
        if names_contain(&self.allow, name) {
            true
        } else if names_contain(&self.deny, name) {
            false
        } else {
            !env_is_secret_shaped(name, value)
        }
    }
}

impl EnvPosture {
    /// Does the posture keep this variable?
    pub fn keeps(&self, name: &str, value: &str) -> (r: bool)
        ensures
            r == env_keeps(self@, name@, value@),
    {
        match self {
            EnvPosture::Passthrough => true,
            EnvPosture::Allowlist(names) => names_contain(names, name),
            EnvPosture::Scrub(s) => s.keeps(name, value),
        }
    }

    /// Given the ambient environment, the pairs to keep, in order. The caller collects the
    /// environment and applies the result to the child.
    pub fn apply(&self, vars: Vec<(String, String)>) -> (r: Vec<(String, String)>)
        ensures
            vars_view(r@) == kept_vars(self@, vars_view(vars@)),
    {
        let mut out: Vec<(String, String)> = Vec::new();
        let mut i: usize = 0;
        while i < vars.len()
            invariant
                i <= vars.len(),
                vars_view(out@) == kept_vars(self@, vars_view(vars@).take(i as int)),
            decreases vars.len() - i,
        {
            let ghost t = vars_view(vars@).take(i + 1);
            assert(t.drop_last() =~= vars_view(vars@).take(i as int));
            assert(t.last() == (vars@[i as int].0@, vars@[i as int].1@));
            if self.keeps(vars[i].0.as_str(), vars[i].1.as_str()) {
                let k = copy_string(&vars[i].0);
                let v = copy_string(&vars[i].1);
                let ghost before = out@;
                out.push((k, v));
                assert(vars_view(out@) =~= vars_view(before).push((k@, v@)));
            }
            i = i + 1;
        }
        assert(vars_view(vars@).take(vars.len() as int) =~= vars_view(vars@));
        out
    }

    /// The names `apply` drops, for telemetry; never the values.
    pub fn dropped_names(&self, vars: &[(String, String)]) -> (r: Vec<String>)
        ensures
            strs_view(r@) == dropped_vars(self@, vars_view(vars@)),
    {
        let mut out: Vec<String> = Vec::new();
        let mut i: usize = 0;
        while i < vars.len()
            invariant
                i <= vars.len(),
                strs_view(out@) == dropped_vars(self@, vars_view(vars@).take(i as int)),
            decreases vars.len() - i,
        {
            let ghost t = vars_view(vars@).take(i + 1);
            assert(t.drop_last() =~= vars_view(vars@).take(i as int));
            assert(t.last() == (vars@[i as int].0@, vars@[i as int].1@));
            if !self.keeps(vars[i].0.as_str(), vars[i].1.as_str()) {
                let k = copy_string(&vars[i].0);
                let ghost before = out@;
                out.push(k);
                assert(strs_view(out@) =~= strs_view(before).push(k@));
            }
            i = i + 1;
        }
        assert(vars_view(vars@).take(vars.len() as int) =~= vars_view(vars@));
        out
    }
}


// ---------------------------------------------------------------------------------------------
// Canonical form

/// `r` lists the names of `s` once each, in name order.
pub open spec fn names_canonical_of(r: Seq<Seq<char>>, s: Seq<Seq<char>>) -> bool {
    names_sorted(r) && forall|x: Seq<char>| #[trigger] r.contains(x) <==> s.contains(x)
}

/// `r` lists the ports of `s` once each, in increasing order.
pub open spec fn ports_canonical_of(r: Seq<u16>, s: Seq<u16>) -> bool {
    ports_sorted(r) && forall|x: u16| #[trigger] r.contains(x) <==> s.contains(x)
}

/// An empty port set is the same as no network.
pub open spec fn net_canonical_of(r: NetModel, n: NetModel) -> bool {
    match n {
        NetModel::Deny => r is Deny,
        NetModel::Ports(p) => if p.len() == 0 {
            r is Deny
        } else {
            match r {
                NetModel::Ports(q) => ports_canonical_of(q, p),
                NetModel::Deny => false,
            }
        },
    }
}

pub open spec fn exec_canonical_of(r: ExecModel, e: ExecModel) -> bool {
    match (r, e) {
        (ExecModel::Unrestricted, ExecModel::Unrestricted) => true,
        (ExecModel::Allowlist(a), ExecModel::Allowlist(b)) => canonical_set_of(a, b),
        _ => false,
    }
}

pub open spec fn env_canonical_of(r: EnvModel, e: EnvModel) -> bool {
    match (r, e) {
        (EnvModel::Passthrough, EnvModel::Passthrough) => true,
        (EnvModel::Allowlist(a), EnvModel::Allowlist(b)) => names_canonical_of(a, b),
        (EnvModel::Scrub(a), EnvModel::Scrub(b)) => names_canonical_of(a.allow, b.allow)
            && names_canonical_of(a.deny, b.deny),
        _ => false,
    }
}

pub open spec fn visibility_canonical_of(r: VisibilityModel, v: VisibilityModel) -> bool {
    match (r, v) {
        (VisibilityModel::AllowAll, VisibilityModel::AllowAll) => true,
        (VisibilityModel::Deny, VisibilityModel::Deny) => true,
        (VisibilityModel::Allow(a), VisibilityModel::Allow(b)) => names_canonical_of(a, b),
        _ => false,
    }
}

pub open spec fn mcp_canonical_of(r: McpModel, m: McpModel) -> bool {
    &&& visibility_canonical_of(r.tools, m.tools)
    &&& visibility_canonical_of(r.resources, m.resources)
    &&& visibility_canonical_of(r.prompts, m.prompts)
    &&& r.sampling == m.sampling
    &&& r.elicitation == m.elicitation
}

/// The same servers, each with its policy in canonical form.
pub open spec fn servers_canonical_of(r: Seq<(Seq<char>, McpModel)>, m: Seq<(Seq<char>, McpModel)>) -> bool {
    &&& names_sorted(map_keys(r))
    &&& forall|k: Seq<char>| #[trigger] map_get(r, k) is Some <==> map_get(m, k) is Some
    &&& forall|k: Seq<char>| map_get(m, k) is Some ==> mcp_canonical_of(
        #[trigger] map_get(r, k).unwrap(),
        map_get(m, k).unwrap(),
    )
}

pub open spec fn fs_canonical_of(r: FsModel, f: FsModel) -> bool {
    &&& r.read_mode == f.read_mode
    &&& canonical_set_of(r.reads, f.reads)
    &&& canonical_set_of(r.writes, f.writes)
    &&& canonical_set_of(r.writes_no_create, f.writes_no_create)
    &&& canonical_set_of(r.subtract, f.subtract)
    &&& canonical_set_of(r.write_subtract, f.write_subtract)
}

/// `r` is the canonical form of `b`: every pattern set canonical, every name list sorted and
/// deduplicated, an empty port set turned into `Deny`. Equal capabilities have one canonical
/// form, which is what makes compilation byte-deterministic.
pub open spec fn blueprint_canonical_of(r: BlueprintModel, b: BlueprintModel) -> bool {
    &&& fs_canonical_of(r.fs, b.fs)
    &&& net_canonical_of(r.net, b.net)
    &&& exec_canonical_of(r.exec_posture, b.exec_posture)
    &&& env_canonical_of(r.env, b.env)
    &&& servers_canonical_of(r.mcp, b.mcp)
    &&& names_canonical_of(r.allow_credentials, b.allow_credentials)
    &&& canonical_set_of(r.auto_widen, b.auto_widen)
}

impl Visibility {
    pub fn canonicalize(&self) -> (r: Visibility)
        ensures
            visibility_canonical_of(r@, self@),
    {
        match self {
            Visibility::Allow(n) => Visibility::Allow(canonical_names(n)),
            Visibility::AllowAll => Visibility::AllowAll,
            Visibility::Deny => Visibility::Deny,
        }
    }
}

impl McpPolicy {
    pub fn canonicalize(&self) -> (r: McpPolicy)
        ensures
            mcp_canonical_of(r@, self@),
    {
        McpPolicy {
            tools: self.tools.canonicalize(),
            resources: self.resources.canonicalize(),
            prompts: self.prompts.canonicalize(),
            sampling: self.sampling,
            elicitation: self.elicitation,
        }
    }
}

impl NetPosture {
    pub fn canonicalize(&self) -> (r: NetPosture)
        ensures
            net_canonical_of(r@, self@),
    {
        match self {
            NetPosture::Ports(ports) => {
                let p = canonical_ports(ports);
                if p.len() == 0 {
                    proof {
                        if ports@.len() > 0 {
                            assert(ports@.contains(ports@[0]));
                            assert(p@.contains(ports@[0]));
                        }
                    }
                    NetPosture::Deny
                } else {
                    proof {
                        if ports@.len() == 0 {
                            assert(p@.contains(p@[0]));
                        }
                    }
                    NetPosture::Ports(p)
                }
            },
            NetPosture::Deny => NetPosture::Deny,
        }
    }
}

impl ExecPosture {
    pub fn canonicalize(&self) -> (r: ExecPosture)
        ensures
            exec_canonical_of(r@, self@),
    {
        match self {
            ExecPosture::Allowlist(paths) => ExecPosture::Allowlist(canonicalize_set(paths.as_slice())),
            ExecPosture::Unrestricted => ExecPosture::Unrestricted,
        }
    }
}

impl EnvScrub {
    pub fn canonicalize(&self) -> (r: EnvScrub)
        ensures
            names_canonical_of(r@.allow, self@.allow),
            names_canonical_of(r@.deny, self@.deny),
    {
        EnvScrub { allow: canonical_names(&self.allow), deny: canonical_names(&self.deny) }
    }
}

impl EnvPosture {
    pub fn canonicalize(&self) -> (r: EnvPosture)
        ensures
            env_canonical_of(r@, self@),
    {
        match self {
            EnvPosture::Passthrough => EnvPosture::Passthrough,
            EnvPosture::Allowlist(names) => EnvPosture::Allowlist(canonical_names(names)),
            EnvPosture::Scrub(s) => EnvPosture::Scrub(s.canonicalize()),
        }
    }
}

impl FsBlueprint {
    pub fn canonicalize(&self) -> (r: FsBlueprint)
        ensures
            fs_canonical_of(r@, self@),
    {
        FsBlueprint {
            read_mode: self.read_mode,
            reads: canonicalize_set(self.reads.as_slice()),
            writes: canonicalize_set(self.writes.as_slice()),
            writes_no_create: canonicalize_set(self.writes_no_create.as_slice()),
            subtract: canonicalize_set(self.subtract.as_slice()),
            write_subtract: canonicalize_set(self.write_subtract.as_slice()),
        }
    }
}

/// The servers with their policies in canonical form.
pub fn canonical_servers(m: &NameMap<McpPolicy>) -> (r: NameMap<McpPolicy>)
    ensures
        servers_canonical_of(r@, m@),
{
    let n = m.len();
    let ghost mv = m@;
    let mut out: NameMap<McpPolicy> = NameMap::new();
    let mut i: usize = 0;
    while i < n
        invariant
            n == mv.len(),
            mv == m@,
            names_sorted(map_keys(mv)),
            i <= n,
            forall|j: int| 0 <= j < i ==> #[trigger] map_get(out@, mv[j].0) is Some
                && mcp_canonical_of(map_get(out@, mv[j].0).unwrap(), mv[j].1),
            forall|k: Seq<char>| #[trigger] map_get(out@, k) is Some ==> exists|j: int| 0 <= j < i && #[trigger] mv[j].0 == k,
        decreases n - i,
    {
        let key = copy_string(m.key(i));
        let pol = m.value(i).canonicalize();
        let ghost before = out@;
        out.insert(key, pol);
        assert forall|j: int| 0 <= j < i + 1 implies #[trigger] map_get(out@, mv[j].0) is Some
            && mcp_canonical_of(map_get(out@, mv[j].0).unwrap(), mv[j].1) by {
            if j < i {
                lemma_keys_distinct(mv, j, i as int);
            }
        }
        assert forall|k: Seq<char>| #[trigger] map_get(out@, k) is Some implies exists|j: int| 0 <= j < i + 1 && #[trigger] mv[j].0 == k by {
            if k != mv[i as int].0 {
                assert(map_get(before, k) is Some);
            } else {
                assert(mv[i as int].0 == k);
            }
        }
        i = i + 1;
    }
    let _ = out.len();
    assert forall|k: Seq<char>| #[trigger] map_get(out@, k) is Some <==> map_get(mv, k) is Some by {
        if map_get(out@, k) is Some {
            let j = choose|j: int| 0 <= j < n && #[trigger] mv[j].0 == k;
            lemma_map_get_at(mv, j);
        }
        if map_get(mv, k) is Some {
            lemma_map_get_some(mv, k);
            let j = choose|j: int| 0 <= j < mv.len() && #[trigger] mv[j].0 == k && Some(mv[j].1) == map_get(mv, k);
            assert(map_get(out@, mv[j].0) is Some);
        }
    }
    assert forall|k: Seq<char>| map_get(mv, k) is Some implies mcp_canonical_of(
        #[trigger] map_get(out@, k).unwrap(),
        map_get(mv, k).unwrap(),
    ) by {
        lemma_map_get_some(mv, k);
        let j = choose|j: int| 0 <= j < mv.len() && #[trigger] mv[j].0 == k && Some(mv[j].1) == map_get(mv, k);
        assert(map_get(out@, mv[j].0) is Some);
    }
    out
}

impl Blueprint {
    /// The canonical form: equal capabilities canonicalize identically.
    pub fn canonicalize(&self) -> (r: Blueprint)
        ensures
            blueprint_canonical_of(r@, self@),
    {
        Blueprint {
            fs: self.fs.canonicalize(),
            net: self.net.canonicalize(),
            exec_posture: self.exec_posture.canonicalize(),
            env: self.env.canonicalize(),
            mcp: canonical_servers(&self.mcp),
            allow_credentials: canonical_names(&self.allow_credentials),
            discovery: DiscoveryBlueprint {
                auto_widen: canonicalize_set(self.discovery.auto_widen.as_slice()),
            },
        }
    }
}


// ---------------------------------------------------------------------------------------------
// Uniqueness of the canonical form

proof fn lemma_names_canonical_unique(r1: Seq<Seq<char>>, r2: Seq<Seq<char>>, s: Seq<Seq<char>>)
    requires
        names_canonical_of(r1, s),
        names_canonical_of(r2, s),
    ensures
        r1 == r2,
{
    crate::names::lemma_names_unique(r1, r2);
}

proof fn lemma_set_canonical_unique(r1: Seq<PatternModel>, r2: Seq<PatternModel>, s: Seq<PatternModel>)
    requires
        canonical_set_of(r1, s),
        canonical_set_of(r2, s),
    ensures
        r1 == r2,
{
    crate::path_set::canonicalize_set_ignores_order(s, s, r1, r2);
}

proof fn lemma_visibility_canonical_unique(r1: VisibilityModel, r2: VisibilityModel, v: VisibilityModel)
    requires
        visibility_canonical_of(r1, v),
        visibility_canonical_of(r2, v),
    ensures
        r1 == r2,
{
    if let VisibilityModel::Allow(n) = v {
        lemma_names_canonical_unique(r1->Allow_0, r2->Allow_0, n);
    }
}

proof fn lemma_mcp_canonical_unique(r1: McpModel, r2: McpModel, m: McpModel)
    requires
        mcp_canonical_of(r1, m),
        mcp_canonical_of(r2, m),
    ensures
        r1 == r2,
{
    lemma_visibility_canonical_unique(r1.tools, r2.tools, m.tools);
    lemma_visibility_canonical_unique(r1.resources, r2.resources, m.resources);
    lemma_visibility_canonical_unique(r1.prompts, r2.prompts, m.prompts);
}

/// A blueprint has exactly one canonical form.
pub proof fn canonical_form_is_unique(r1: BlueprintModel, r2: BlueprintModel, b: BlueprintModel)
    requires
        blueprint_canonical_of(r1, b),
        blueprint_canonical_of(r2, b),
    ensures
        r1 == r2,
{
    lemma_set_canonical_unique(r1.fs.reads, r2.fs.reads, b.fs.reads);
    lemma_set_canonical_unique(r1.fs.writes, r2.fs.writes, b.fs.writes);
    lemma_set_canonical_unique(r1.fs.writes_no_create, r2.fs.writes_no_create, b.fs.writes_no_create);
    lemma_set_canonical_unique(r1.fs.subtract, r2.fs.subtract, b.fs.subtract);
    lemma_set_canonical_unique(r1.fs.write_subtract, r2.fs.write_subtract, b.fs.write_subtract);
    lemma_set_canonical_unique(r1.auto_widen, r2.auto_widen, b.auto_widen);
    lemma_names_canonical_unique(r1.allow_credentials, r2.allow_credentials, b.allow_credentials);
    if let NetModel::Ports(p) = b.net {
        if p.len() > 0 {
            crate::names::lemma_ports_unique(r1.net->Ports_0, r2.net->Ports_0);
        }
    }
    if let ExecModel::Allowlist(a) = b.exec_posture {
        lemma_set_canonical_unique(r1.exec_posture->Allowlist_0, r2.exec_posture->Allowlist_0, a);
    }
    match b.env {
        EnvModel::Allowlist(n) => {
            lemma_names_canonical_unique(r1.env->Allowlist_0, r2.env->Allowlist_0, n);
        },
        EnvModel::Scrub(sc) => {
            lemma_names_canonical_unique(r1.env->Scrub_0.allow, r2.env->Scrub_0.allow, sc.allow);
            lemma_names_canonical_unique(r1.env->Scrub_0.deny, r2.env->Scrub_0.deny, sc.deny);
        },
        EnvModel::Passthrough => {},
    }
    assert forall|k: Seq<char>| map_get(r1.mcp, k) == map_get(r2.mcp, k) by {
        if map_get(b.mcp, k) is Some {
            lemma_mcp_canonical_unique(map_get(r1.mcp, k).unwrap(), map_get(r2.mcp, k).unwrap(), map_get(b.mcp, k).unwrap());
        }
    }
    crate::names::lemma_map_unique(r1.mcp, r2.mcp);
}

/// Canonicalizing a canonical blueprint changes nothing.
pub proof fn canonicalize_is_idempotent(b: BlueprintModel, r: BlueprintModel, r2: BlueprintModel)
    requires
        blueprint_canonical_of(r, b),
        blueprint_canonical_of(r2, r),
    ensures
        r2 == r,
{
    crate::path_set::canonicalize_set_is_idempotent(b.fs.reads, r.fs.reads, r2.fs.reads);
    crate::path_set::canonicalize_set_is_idempotent(b.fs.writes, r.fs.writes, r2.fs.writes);
    crate::path_set::canonicalize_set_is_idempotent(b.fs.writes_no_create, r.fs.writes_no_create, r2.fs.writes_no_create);
    crate::path_set::canonicalize_set_is_idempotent(b.fs.subtract, r.fs.subtract, r2.fs.subtract);
    crate::path_set::canonicalize_set_is_idempotent(b.fs.write_subtract, r.fs.write_subtract, r2.fs.write_subtract);
    crate::path_set::canonicalize_set_is_idempotent(b.auto_widen, r.auto_widen, r2.auto_widen);
    crate::names::lemma_names_unique(r2.allow_credentials, r.allow_credentials);
    if let NetModel::Ports(p) = b.net {
        if p.len() > 0 {
            let q = r.net->Ports_0;
            assert(p.contains(p[0]));
            assert(q.contains(p[0]));
            crate::names::lemma_ports_unique(r2.net->Ports_0, q);
        }
    }
    if let ExecModel::Allowlist(a) = b.exec_posture {
        crate::path_set::canonicalize_set_is_idempotent(a, r.exec_posture->Allowlist_0, r2.exec_posture->Allowlist_0);
    }
    match b.env {
        EnvModel::Allowlist(n) => {
            crate::names::lemma_names_unique(r2.env->Allowlist_0, r.env->Allowlist_0);
        },
        EnvModel::Scrub(sc) => {
            crate::names::lemma_names_unique(r2.env->Scrub_0.allow, r.env->Scrub_0.allow);
            crate::names::lemma_names_unique(r2.env->Scrub_0.deny, r.env->Scrub_0.deny);
        },
        EnvModel::Passthrough => {},
    }
    assert forall|k: Seq<char>| map_get(r2.mcp, k) == map_get(r.mcp, k) by {
        if map_get(r.mcp, k) is Some {
            let v2 = map_get(r2.mcp, k).unwrap();
            let v = map_get(r.mcp, k).unwrap();
            lemma_visibility_idem(v2.tools, v.tools);
            lemma_visibility_idem(v2.resources, v.resources);
            lemma_visibility_idem(v2.prompts, v.prompts);
        }
    }
    crate::names::lemma_map_unique(r2.mcp, r.mcp);
}

proof fn lemma_visibility_idem(r2: VisibilityModel, r: VisibilityModel)
    requires
        visibility_canonical_of(r2, r),
        r matches VisibilityModel::Allow(n) ==> names_sorted(n),
    ensures
        r2 == r,
{
    if let VisibilityModel::Allow(n) = r {
        crate::names::lemma_names_unique(r2->Allow_0, n);
    }
}

} // verus!
