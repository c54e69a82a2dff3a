//! Per-rule provenance and `explain`: for a path, which rule decides read, write and exec access
//! under the deny-terminal model, and which layer that rule came from. The provenance is a side
//! table alongside the merged blueprint, so the compiler and its determinism are untouched.

use vstd::prelude::*;
use crate::blueprint::{Blueprint, ExecModel, ExecPosture, ReadMode};
use crate::layer::{apply_layer, merged_of, BlueprintLayer, LayerModel, PathField, layer_paths};
use crate::names::copy_string;
use crate::path::{canonical_model, concrete_comps, is_absolute, matches_model, PathPattern, PatternModel};
use crate::text::{chars_of, push_str, string_of};

verus! {

/// Where an effective rule came from.
#[derive(Clone, Debug, PartialEq, Eq)]
pub enum RuleSource {
    /// The fail-closed baseline and the compiled-in credential-catalog floor.
    BuiltIn,
    /// An `extends` base (its file path).
    Profile(String),
    /// The named blueprint file.
    File(String),
    /// A command-line override.
    Cli,
    /// The discovered layer.
    Discovered(String),
}

pub enum SourceModel {
    BuiltIn,
    Profile(Seq<char>),
    File(Seq<char>),
    Cli,
    Discovered(Seq<char>),
}

impl View for RuleSource {
    type V = SourceModel;

    open spec fn view(&self) -> SourceModel {
        match self {
            RuleSource::BuiltIn => SourceModel::BuiltIn,
            RuleSource::Profile(s) => SourceModel::Profile(s@),
            RuleSource::File(s) => SourceModel::File(s@),
            RuleSource::Cli => SourceModel::Cli,
            RuleSource::Discovered(s) => SourceModel::Discovered(s@),
        }
    }
}

impl RuleSource {
    pub fn copy(&self) -> (r: RuleSource)
        ensures
            r@ == self@,
    {
        match self {
            RuleSource::BuiltIn => RuleSource::BuiltIn,
            RuleSource::Profile(s) => RuleSource::Profile(copy_string(s)),
            RuleSource::File(s) => RuleSource::File(copy_string(s)),
            RuleSource::Cli => RuleSource::Cli,
            RuleSource::Discovered(s) => RuleSource::Discovered(copy_string(s)),
        }
    }
}

pub type Tagged = Seq<(PatternModel, SourceModel)>;

/// Effective path and exec patterns tagged with the layer they came from, kept raw (not
/// canonicalized) so `explain` can name the exact rule and origin that decides a path.
#[derive(Clone, Debug)]
pub struct Provenance {
    reads: Vec<(PathPattern, RuleSource)>,
    writes: Vec<(PathPattern, RuleSource)>,
    writes_no_create: Vec<(PathPattern, RuleSource)>,
    subtract: Vec<(PathPattern, RuleSource)>,
    write_subtract: Vec<(PathPattern, RuleSource)>,
    /// The winning exec allow-list (empty when exec is unrestricted): exec is last-set-wins.
    exec_rules: Vec<(PathPattern, RuleSource)>,
}

pub open spec fn tagged_view(v: Seq<(PathPattern, RuleSource)>) -> Tagged {
    v.map_values(|e: (PathPattern, RuleSource)| (e.0@, e.1@))
}

pub struct ProvenanceModel {
    pub reads: Tagged,
    pub writes: Tagged,
    pub writes_no_create: Tagged,
    pub subtract: Tagged,
    pub write_subtract: Tagged,
    pub exec_rules: Tagged,
}

impl View for Provenance {
    type V = ProvenanceModel;

    closed spec fn view(&self) -> ProvenanceModel {
        ProvenanceModel {
            reads: tagged_view(self.reads@),
            writes: tagged_view(self.writes@),
            writes_no_create: tagged_view(self.writes_no_create@),
            subtract: tagged_view(self.subtract@),
            write_subtract: tagged_view(self.write_subtract@),
            exec_rules: tagged_view(self.exec_rules@),
        }
    }
}

/// Every pattern paired with one source.
pub open spec fn tag_all(ps: Seq<PatternModel>, src: SourceModel) -> Tagged {
    ps.map_values(|p: PatternModel| (p, src))
}

/// One path set of every layer, each pattern tagged with its layer's source, lowest first.
pub open spec fn stacked_tagged(ls: Seq<(SourceModel, LayerModel)>, f: PathField) -> Tagged
    decreases ls.len(),
{
    if ls.len() == 0 {
        Seq::empty()
    } else {
        stacked_tagged(ls.drop_last(), f) + tag_all(layer_paths(ls.last().1, f), ls.last().0)
    }
}

/// The exec allow-list of the last layer that sets an exec posture (empty for `unrestricted`).
pub open spec fn tagged_exec(ls: Seq<(SourceModel, LayerModel)>) -> Tagged
    decreases ls.len(),
{
    if ls.len() == 0 {
        Seq::empty()
    } else {
        match ls.last().1.exec_posture {
            Some(ExecModel::Allowlist(ps)) => tag_all(ps, ls.last().0),
            Some(ExecModel::Unrestricted) => Seq::empty(),
            None => tagged_exec(ls.drop_last()),
        }
    }
}

pub open spec fn sourced_layers(v: Seq<(RuleSource, BlueprintLayer)>) -> Seq<(SourceModel, LayerModel)> {
    v.map_values(|e: (RuleSource, BlueprintLayer)| (e.0@, e.1@))
}

pub open spec fn plain_layers(v: Seq<(SourceModel, LayerModel)>) -> Seq<LayerModel> {
    v.map_values(|e: (SourceModel, LayerModel)| e.1)
}

fn tag_patterns(out: &mut Vec<(PathPattern, RuleSource)>, ps: &Vec<PathPattern>, src: &RuleSource)
    ensures
        tagged_view(final(out)@) == tagged_view(old(out)@) + tag_all(crate::path_set::pats_view(ps@), src@),
{
    let ghost start = tagged_view(out@);
    let ghost pv = crate::path_set::pats_view(ps@);
    let mut i: usize = 0;
    while i < ps.len()
        invariant
            pv == crate::path_set::pats_view(ps@),
            i <= ps.len(),
            tagged_view(out@) == start + tag_all(pv.take(i as int), src@),
        decreases ps.len() - i,
    {
        let ghost before = tagged_view(out@);
        let p = ps[i].copy();
        let s = src.copy();
        out.push((p, s));
        assert(tagged_view(out@) =~= before.push((p@, s@)));
        assert(tag_all(pv.take(i + 1), src@) =~= tag_all(pv.take(i as int), src@).push((pv[i as int], src@)));
        i = i + 1;
    }
    assert(pv.take(ps.len() as int) =~= pv);
}

/// Like `merge`, but also records, per path and exec pattern, the layer it came from. The
/// returned blueprint is the merge of the layers (the same one `merge` returns, see
/// `crate::layer::merge_is_deterministic`); the provenance is a side table for `explain` only.
pub fn merge_with_provenance(layers: &[(RuleSource, BlueprintLayer)]) -> (r: (Blueprint, Provenance))
    ensures
        merged_of(r.0@, plain_layers(sourced_layers(layers@))),
        r.1@.reads == stacked_tagged(sourced_layers(layers@), PathField::Reads),
        r.1@.writes == stacked_tagged(sourced_layers(layers@), PathField::Writes),
        r.1@.writes_no_create == stacked_tagged(sourced_layers(layers@), PathField::WritesNoCreate),
        r.1@.subtract == stacked_tagged(sourced_layers(layers@), PathField::Subtract),
        r.1@.write_subtract == stacked_tagged(sourced_layers(layers@), PathField::WriteSubtract),
        r.1@.exec_rules == tagged_exec(sourced_layers(layers@)),
{
    let ghost sl = sourced_layers(layers@);
    let ghost ls = plain_layers(sl);
    let mut out = Blueprint::empty();
    let mut p = Provenance {
        reads: Vec::new(),
        writes: Vec::new(),
        writes_no_create: Vec::new(),
        subtract: Vec::new(),
        write_subtract: Vec::new(),
        exec_rules: Vec::new(),
    };
    let mut i: usize = 0;
    assert(ls.take(0) =~= Seq::<LayerModel>::empty());
    assert(sl.take(0) =~= Seq::<(SourceModel, LayerModel)>::empty());
    assert(p@.reads =~= Seq::<(PatternModel, SourceModel)>::empty());
    assert(p@.writes =~= Seq::<(PatternModel, SourceModel)>::empty());
    assert(p@.writes_no_create =~= Seq::<(PatternModel, SourceModel)>::empty());
    assert(p@.subtract =~= Seq::<(PatternModel, SourceModel)>::empty());
    assert(p@.write_subtract =~= Seq::<(PatternModel, SourceModel)>::empty());
    assert(p@.exec_rules =~= Seq::<(PatternModel, SourceModel)>::empty());
    while i < layers.len()
        invariant
            sl == sourced_layers(layers@),
            ls == plain_layers(sl),
            i <= layers.len(),
            crate::layer::merge_state(out@, ls.take(i as int)),
            p@.reads == stacked_tagged(sl.take(i as int), PathField::Reads),
            p@.writes == stacked_tagged(sl.take(i as int), PathField::Writes),
            p@.writes_no_create == stacked_tagged(sl.take(i as int), PathField::WritesNoCreate),
            p@.subtract == stacked_tagged(sl.take(i as int), PathField::Subtract),
            p@.write_subtract == stacked_tagged(sl.take(i as int), PathField::WriteSubtract),
            p@.exec_rules == tagged_exec(sl.take(i as int)),
        decreases layers.len() - i,
    {
        let src = &layers[i].0;
        let layer = &layers[i].1;
        let ghost t = ls.take(i + 1);
        assert(t.drop_last() =~= ls.take(i as int));
        assert(t.last() == layer@);
        let ghost u = sl.take(i + 1);
        assert(u.drop_last() =~= sl.take(i as int));
        assert(u.last() == (src@, layer@));
        apply_layer(&mut out, layer);
        tag_patterns(&mut p.reads, &layer.fs.reads, src);
        tag_patterns(&mut p.writes, &layer.fs.writes, src);
        tag_patterns(&mut p.writes_no_create, &layer.fs.writes_no_create, src);
        tag_patterns(&mut p.subtract, &layer.fs.subtract, src);
        tag_patterns(&mut p.write_subtract, &layer.fs.write_subtract, src);
        match &layer.exec_posture {
            Some(ExecPosture::Allowlist(paths)) => {
                let mut fresh: Vec<(PathPattern, RuleSource)> = Vec::new();
                tag_patterns(&mut fresh, paths, src);
                assert(tagged_view(fresh@) =~= tag_all(crate::path_set::pats_view(paths@), src@));
                p.exec_rules = fresh;
            },
            Some(ExecPosture::Unrestricted) => {
                p.exec_rules = Vec::new();
                assert(p@.exec_rules =~= Seq::<(PatternModel, SourceModel)>::empty());
            },
            None => {},
        }
        i = i + 1;
    }
    assert(ls.take(layers.len() as int) =~= ls);
    assert(sl.take(layers.len() as int) =~= sl);
    let bp = out.canonicalize();
    proof {
        crate::layer::lemma_merge_state_done(out@, bp@, ls);
    }
    (bp, p)
}

/// A read, write or exec verdict for a path, naming the winning rule and its origin.
#[derive(Debug, PartialEq)]
pub enum Verdict {
    /// A grant applies, from `source`.
    Granted { rule: String, source: RuleSource },
    /// A deny applies; deny is terminal, so it wins over any grant.
    Denied { rule: String, source: RuleSource },
    /// Default-allow with no rule naming it: subtractive-mode reads, or unrestricted exec.
    Ambient,
    /// No grant reaches this in a closed universe. Not accessible.
    Hidden,
}

pub enum VerdictModel {
    Granted { rule: Seq<char>, source: SourceModel },
    Denied { rule: Seq<char>, source: SourceModel },
    Ambient,
    Hidden,
}

impl View for Verdict {
    type V = VerdictModel;

    open spec fn view(&self) -> VerdictModel {
        match self {
            Verdict::Granted { rule, source } => VerdictModel::Granted { rule: rule@, source: source@ },
            Verdict::Denied { rule, source } => VerdictModel::Denied { rule: rule@, source: source@ },
            Verdict::Ambient => VerdictModel::Ambient,
            Verdict::Hidden => VerdictModel::Hidden,
        }
    }
}

/// The read, write and exec verdicts for a path.
#[derive(Debug)]
pub struct Explanation {
    pub path: String,
    pub read: Verdict,
    pub write: Verdict,
    /// The exec verdict (`exec` in the serialized form).
    pub execute: Verdict,
}

/// The first tagged rule that matches the path, as its canonical text and source.
pub open spec fn first_match(v: Tagged, path: Seq<char>) -> Option<(Seq<char>, SourceModel)>
    decreases v.len(),
{
    if v.len() == 0 {
        None
    } else if matches_model(v[0].0, is_absolute(path), concrete_comps(path)) {
        Some((canonical_model(v[0].0), v[0].1))
    } else {
        first_match(v.drop_first(), path)
    }
}

/// The credential floor or an operator subtract: a terminal deny of read and write.
pub open spec fn hard_deny(p: ProvenanceModel, path: Seq<char>, floor_type: Option<Seq<char>>) -> Option<(Seq<char>, SourceModel)> {
    match floor_type {
        Some(t) => Some(("credential floor ("@ + t + ")"@, SourceModel::BuiltIn)),
        None => first_match(p.subtract, path),
    }
}

/// A matching deny wins; otherwise a matching grant (a write grant implies read); otherwise the
/// mode's default: ambient in subtractive mode, hidden when closed.
pub open spec fn read_verdict(p: ProvenanceModel, mode: ReadMode, path: Seq<char>, floor_type: Option<Seq<char>>) -> VerdictModel {
    match hard_deny(p, path, floor_type) {
        Some((rule, source)) => VerdictModel::Denied { rule, source },
        None => match first_match(p.reads, path) {
            Some((rule, source)) => VerdictModel::Granted { rule, source },
            None => match first_match(p.writes, path) {
                Some((rule, source)) => VerdictModel::Granted { rule, source },
                None => match first_match(p.writes_no_create, path) {
                    Some((rule, source)) => VerdictModel::Granted { rule, source },
                    None => if mode == ReadMode::AmbientMinusSubtract {
                        VerdictModel::Ambient
                    } else {
                        VerdictModel::Hidden
                    },
                },
            },
        },
    }
}

/// A matching deny (floor, subtract, or write-subtract) wins; then a write grant, then a modify
/// grant (no create); writes have no ambient default.
pub open spec fn write_verdict(p: ProvenanceModel, path: Seq<char>, floor_type: Option<Seq<char>>) -> VerdictModel {
    match hard_deny(p, path, floor_type) {
        Some((rule, source)) => VerdictModel::Denied { rule, source },
        None => match first_match(p.write_subtract, path) {
            Some((rule, source)) => VerdictModel::Denied { rule: rule + " (write-subtract)"@, source },
            None => match first_match(p.writes, path) {
                Some((rule, source)) => VerdictModel::Granted { rule, source },
                None => match first_match(p.writes_no_create, path) {
                    Some((rule, source)) => VerdictModel::Granted { rule: rule + " (no create)"@, source },
                    None => VerdictModel::Hidden,
                },
            },
        },
    }
}

/// Exec is governed only by the exec posture: unrestricted is ambient; an allow-list grants only
/// the listed paths.
pub open spec fn exec_verdict(p: ProvenanceModel, exec: ExecModel, path: Seq<char>) -> VerdictModel {
    match exec {
        ExecModel::Unrestricted => VerdictModel::Ambient,
        ExecModel::Allowlist(_) => match first_match(p.exec_rules, path) {
            Some((rule, source)) => VerdictModel::Granted { rule, source },
            None => VerdictModel::Hidden,
        },
    }
}

fn first_rule(v: &Vec<(PathPattern, RuleSource)>, path: &str) -> (r: Option<(String, RuleSource)>)
    ensures
        match r {
            Some((rule, source)) => first_match(tagged_view(v@), path@) == Some((rule@, source@)),
            None => first_match(tagged_view(v@), path@) is None,
        },
{
    let ghost tv = tagged_view(v@);
    let mut i: usize = 0;
    assert(tv.skip(0) =~= tv);
    while i < v.len()
        invariant
            tv == tagged_view(v@),
            i <= v.len(),
            first_match(tv, path@) == first_match(tv.skip(i as int), path@),
        decreases v.len() - i,
    {
        assert(tv.skip(i as int)[0] == (v@[i as int].0@, v@[i as int].1@));
        assert(tv.skip(i as int).drop_first() =~= tv.skip(i + 1));
        if v[i].0.matches_path(path) {
            return Some((v[i].0.canonical(), v[i].1.copy()));
        }
        i = i + 1;
    }
    None
}

impl Provenance {
    /// Evaluate `path` under the deny-terminal model: a matching deny wins; otherwise a matching
    /// grant; otherwise the mode's default. `floor_type` is the credential-floor match the caller
    /// computes from the catalog: a built-in deny of both read and write. Exec is a separate axis
    /// the read/write floor never governs.
    pub fn explain(&self, blueprint: &Blueprint, path: &str, floor_type: Option<String>) -> (r: Explanation)
        ensures
            r.path@ == path@,
            r.read@ == read_verdict(self@, blueprint@.fs.read_mode, path@, opt_view(floor_type)),
            r.write@ == write_verdict(self@, path@, opt_view(floor_type)),
            r.execute@ == exec_verdict(self@, blueprint@.exec_posture, path@),
    {
        let hard: Option<(String, RuleSource)> = match floor_type {
            Some(t) => {
                let mut rule = String::from_str("credential floor (");
                push_str(&mut rule, t.as_str());
                push_str(&mut rule, ")");
                Some((rule, RuleSource::BuiltIn))
            },
            None => first_rule(&self.subtract, path),
        };
        let read = match &hard {
            Some((rule, source)) => Verdict::Denied { rule: copy_string(rule), source: source.copy() },
            None => match first_rule(&self.reads, path) {
                Some((rule, source)) => Verdict::Granted { rule, source },
                None => match first_rule(&self.writes, path) {
                    Some((rule, source)) => Verdict::Granted { rule, source },
                    None => match first_rule(&self.writes_no_create, path) {
                        Some((rule, source)) => Verdict::Granted { rule, source },
                        None => if blueprint.fs.read_mode == ReadMode::AmbientMinusSubtract {
                            Verdict::Ambient
                        } else {
                            Verdict::Hidden
                        },
                    },
                },
            },
        };
        let write = match &hard {
            Some((rule, source)) => Verdict::Denied { rule: copy_string(rule), source: source.copy() },
            None => match first_rule(&self.write_subtract, path) {
                Some((rule, source)) => {
                    let mut r = rule;
                    push_str(&mut r, " (write-subtract)");
                    Verdict::Denied { rule: r, source }
                },
                None => match first_rule(&self.writes, path) {
                    Some((rule, source)) => Verdict::Granted { rule, source },
                    None => match first_rule(&self.writes_no_create, path) {
                        Some((rule, source)) => {
                            let mut r = rule;
                            push_str(&mut r, " (no create)");
                            Verdict::Granted { rule: r, source }
                        },
                        None => Verdict::Hidden,
                    },
                },
            },
        };
        let exec = match &blueprint.exec_posture {
            ExecPosture::Unrestricted => Verdict::Ambient,
            ExecPosture::Allowlist(_) => match first_rule(&self.exec_rules, path) {
                Some((rule, source)) => Verdict::Granted { rule, source },
                None => Verdict::Hidden,
            },
        };
        Explanation { path: String::from_str(path), read, write, execute: exec }
    }
}

pub open spec fn opt_view(o: Option<String>) -> Option<Seq<char>> {
    match o {
        Some(s) => Some(s@),
        None => None,
    }
}

/// Deny is terminal: whenever the credential floor or an operator subtract matches a path, its
/// read and write verdicts are denials, whatever grants also match.
pub proof fn deny_is_terminal(p: ProvenanceModel, mode: ReadMode, path: Seq<char>, floor_type: Option<Seq<char>>)
    requires
        floor_type is Some || first_match(p.subtract, path) is Some,
    ensures
        read_verdict(p, mode, path, floor_type) is Denied,
        write_verdict(p, path, floor_type) is Denied,
{
}

/// The exec verdict does not depend on the credential floor or the read/write rules: two
/// provenance tables with the same exec rules give the same exec verdict.
pub proof fn exec_is_a_separate_axis(p: ProvenanceModel, q: ProvenanceModel, exec: ExecModel, path: Seq<char>)
    requires
        p.exec_rules == q.exec_rules,
    ensures
        exec_verdict(p, exec, path) == exec_verdict(q, exec, path),
{
}

/// Some entry of `v` matches `path`.
pub open spec fn some_rule_matches(v: Tagged, path: Seq<char>) -> bool {
    exists|k: int| 0 <= k < v.len() && matches_model(#[trigger] v[k].0, is_absolute(path), concrete_comps(path))
}

/// `rule` and `source` name an entry of `v` that matches `path`.
pub open spec fn names_matching_rule(v: Tagged, path: Seq<char>, rule: Seq<char>, source: SourceModel) -> bool {
    exists|k: int| 0 <= k < v.len() && matches_model(#[trigger] v[k].0, is_absolute(path), concrete_comps(path))
        && rule == canonical_model(v[k].0) && source == v[k].1
}

proof fn lemma_first_match(v: Tagged, path: Seq<char>)
    ensures
        first_match(v, path) is Some <==> some_rule_matches(v, path),
        first_match(v, path) matches Some((rule, source)) ==> names_matching_rule(v, path, rule, source),
    decreases v.len(),
{
    if v.len() > 0 {
        let t = v.drop_first();
        lemma_first_match(t, path);
        if some_rule_matches(t, path) {
            let k = choose|k: int| 0 <= k < t.len() && matches_model(#[trigger] t[k].0, is_absolute(path), concrete_comps(path));
            assert(v[k + 1] == t[k]);
        }
        if some_rule_matches(v, path) && !matches_model(v[0].0, is_absolute(path), concrete_comps(path)) {
            let k = choose|k: int| 0 <= k < v.len() && matches_model(#[trigger] v[k].0, is_absolute(path), concrete_comps(path));
            assert(t[k - 1] == v[k]);
        }
        if let Some((rule, source)) = first_match(t, path) {
            if !matches_model(v[0].0, is_absolute(path), concrete_comps(path)) {
                let k = choose|k: int| 0 <= k < t.len() && matches_model(#[trigger] t[k].0, is_absolute(path), concrete_comps(path))
                    && rule == canonical_model(t[k].0) && source == t[k].1;
                assert(v[k + 1] == t[k]);
            }
        }
        if matches_model(v[0].0, is_absolute(path), concrete_comps(path)) {
            assert(names_matching_rule(v, path, canonical_model(v[0].0), v[0].1));
        }
    }
}

/// The read verdict, stated over the rules that match the path: the credential floor denies; else
/// a matching subtract rule denies, naming itself; else any matching read, write or modify grant
/// grants the read (a write grant implies read), naming a matching grant; else the path is ambient
/// in subtractive mode and hidden when closed.
pub proof fn read_verdict_follows_the_matching_rules(p: ProvenanceModel, mode: ReadMode, path: Seq<char>, floor_type: Option<Seq<char>>)
    ensures
        floor_type is Some ==> read_verdict(p, mode, path, floor_type) is Denied,
        floor_type is None && some_rule_matches(p.subtract, path) ==> (read_verdict(p, mode, path, floor_type) matches VerdictModel::Denied { rule, source }
            && names_matching_rule(p.subtract, path, rule, source)),
        floor_type is None && !some_rule_matches(p.subtract, path) && (some_rule_matches(p.reads, path)
            || some_rule_matches(p.writes, path) || some_rule_matches(p.writes_no_create, path)) ==> (read_verdict(p, mode, path, floor_type) matches VerdictModel::Granted { rule, source }
            && (names_matching_rule(p.reads, path, rule, source) || names_matching_rule(p.writes, path, rule, source)
            || names_matching_rule(p.writes_no_create, path, rule, source))),
        floor_type is None && some_rule_matches(p.writes, path) && !some_rule_matches(p.subtract, path)
            ==> read_verdict(p, mode, path, floor_type) is Granted,
        floor_type is None && !some_rule_matches(p.subtract, path) && !some_rule_matches(p.reads, path)
            && !some_rule_matches(p.writes, path) && !some_rule_matches(p.writes_no_create, path) ==> read_verdict(p, mode, path, floor_type)
            == if mode == ReadMode::AmbientMinusSubtract { VerdictModel::Ambient } else { VerdictModel::Hidden },
{
    lemma_first_match(p.subtract, path);
    lemma_first_match(p.reads, path);
    lemma_first_match(p.writes, path);
    lemma_first_match(p.writes_no_create, path);
}

/// The write verdict, stated over the rules that match the path: the credential floor denies; else
/// a matching subtract or write-subtract rule denies, naming a matching rule; else a matching
/// write grant grants, naming itself; else a matching modify grant grants, marked "no create";
/// else the path is hidden (writes have no ambient default).
pub proof fn write_verdict_follows_the_matching_rules(p: ProvenanceModel, path: Seq<char>, floor_type: Option<Seq<char>>)
    ensures
        floor_type is Some ==> write_verdict(p, path, floor_type) is Denied,
        floor_type is None && some_rule_matches(p.subtract, path) ==> (write_verdict(p, path, floor_type) matches VerdictModel::Denied { rule, source }
            && names_matching_rule(p.subtract, path, rule, source)),
        floor_type is None && !some_rule_matches(p.subtract, path) && some_rule_matches(p.write_subtract, path)
            ==> (write_verdict(p, path, floor_type) matches VerdictModel::Denied { rule, source }
            && exists|r: Seq<char>| rule == r + " (write-subtract)"@ && names_matching_rule(p.write_subtract, path, r, source)),
        floor_type is None && !some_rule_matches(p.subtract, path) && !some_rule_matches(p.write_subtract, path)
            && some_rule_matches(p.writes, path) ==> (write_verdict(p, path, floor_type) matches VerdictModel::Granted { rule, source }
            && names_matching_rule(p.writes, path, rule, source)),
        floor_type is None && !some_rule_matches(p.subtract, path) && !some_rule_matches(p.write_subtract, path)
            && !some_rule_matches(p.writes, path) && some_rule_matches(p.writes_no_create, path)
            ==> (write_verdict(p, path, floor_type) matches VerdictModel::Granted { rule, source }
            && exists|r: Seq<char>| rule == r + " (no create)"@ && names_matching_rule(p.writes_no_create, path, r, source)),
        floor_type is None && !some_rule_matches(p.subtract, path) && !some_rule_matches(p.write_subtract, path)
            && !some_rule_matches(p.writes, path) && !some_rule_matches(p.writes_no_create, path)
            ==> write_verdict(p, path, floor_type) == VerdictModel::Hidden,
{
    lemma_first_match(p.subtract, path);
    lemma_first_match(p.write_subtract, path);
    lemma_first_match(p.writes, path);
    lemma_first_match(p.writes_no_create, path);
}

/// How `explain` decides whether a path may run: with no allow-list every path may; with one, a
/// path runs only when one of its patterns matches, and the verdict names that pattern.
pub proof fn exec_verdict_follows_the_matching_rules(p: ProvenanceModel, exec: ExecModel, path: Seq<char>)
    ensures
        exec is Unrestricted ==> exec_verdict(p, exec, path) == VerdictModel::Ambient,
        exec is Allowlist && some_rule_matches(p.exec_rules, path) ==> (exec_verdict(p, exec, path) matches VerdictModel::Granted { rule, source }
            && names_matching_rule(p.exec_rules, path, rule, source)),
        exec is Allowlist && !some_rule_matches(p.exec_rules, path) ==> exec_verdict(p, exec, path) == VerdictModel::Hidden,
{
    lemma_first_match(p.exec_rules, path);
}

} // verus!
