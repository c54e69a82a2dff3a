//! Reverse compilation: observed accesses become a tagged proposal. Pure -- the log tap and all
//! file handling live with the caller -- so the load-bearing safety property holds by
//! construction: an access the credential floor catches is never a candidate, whatever the zone,
//! the attempt count, or who asks. Everything else is either inside the operator-drawn auto-widen
//! zone or needs review. Observation never changes the running session: this proposes, the
//! operator disposes.

use vstd::prelude::*;
use vstd::multiset::Multiset;
use crate::blueprint::{Blueprint, BlueprintModel, ReadMode};
use crate::catalog::{floor_type_model, trim_trailing_slashes, ResolvedCatalog, ResolvedCatalogModel};
use crate::names::{copy_string, copy_strings, strs_view};
use crate::path::{canonical_model, covers_model, join, parse_model, render_abs, PathPattern, PatternModel};
use crate::path_set::{canonical_set_of, canonicalize_set, pats_view};
use crate::text::{chars_lt, chars_of, lemma_chars_lt_asymmetric, lemma_chars_lt_irreflexive, lemma_chars_lt_total, lemma_chars_lt_transitive, push_all, push_char, push_str, string_of};

verus! {

broadcast use vstd::seq_lib::group_to_multiset_ensures, vstd::multiset::group_multiset_axioms;

#[derive(Clone, Copy, Debug, PartialEq, Eq, Structural)]
pub enum DenialAccess {
    Read,
    Write,
}

/// A kernel-resolved absolute path and its access grade. The source is deliberately not
/// encoded: an enforced denial and a permissive recording's open are one shape.
#[derive(Clone, Debug, PartialEq, Eq)]
pub struct AccessRecord {
    pub path: String,
    pub access: DenialAccess,
}

/// The name the enforced-learning call sites use for the records they observe.
pub type DenialRecord = AccessRecord;

#[derive(Clone, Copy, Debug, PartialEq, Eq, Structural)]
pub enum CandidateTag {
    /// Inside the auto-widen zone: the learning run may move it into the discovered layer itself.
    AutoAccepted,
    /// Outside the zone: surfaces in the proposal and waits for per-entry acceptance.
    NeedsReview,
}

#[derive(Clone, Debug, PartialEq, Eq)]
pub struct Candidate {
    pub pattern: PathPattern,
    pub access: DenialAccess,
    pub tag: CandidateTag,
}

/// An access the floor withheld: operator-channel material, never a candidate and never written
/// into the proposal file.
#[derive(Clone, Debug, PartialEq, Eq)]
pub struct WithheldEntry {
    pub path: String,
    pub credential_type: String,
}

#[derive(Clone, Debug, PartialEq, Eq)]
pub struct ProposalOutcome {
    pub candidates: Vec<Candidate>,
    pub withheld: Vec<WithheldEntry>,
}

pub type RecordModel = (Seq<char>, DenialAccess);

pub type CandidateModel = (PatternModel, DenialAccess, CandidateTag);

pub type WithheldModel = (Seq<char>, Seq<char>);

pub open spec fn records_view(v: Seq<AccessRecord>) -> Seq<RecordModel> {
    v.map_values(|r: AccessRecord| (r.path@, r.access))
}

pub open spec fn cands_view(v: Seq<Candidate>) -> Seq<CandidateModel> {
    v.map_values(|c: Candidate| (c.pattern@, c.access, c.tag))
}

pub open spec fn withheld_view(v: Seq<WithheldEntry>) -> Seq<WithheldModel> {
    v.map_values(|w: WithheldEntry| (w.path@, w.credential_type@))
}

/// The first pass over the records: what was seen (by canonical text and access), what the floor
/// withheld, and what stands as a granular candidate.
pub struct ScanState {
    pub seen: Seq<(Seq<char>, DenialAccess)>,
    pub withheld: Seq<WithheldModel>,
    pub granular: Seq<(PatternModel, DenialAccess)>,
}

/// Unparsable records (not an absolute kernel path) and repeats are skipped; the floor withholds
/// what it catches; everything else stands.
pub open spec fn scan(rs: Seq<RecordModel>, c: ResolvedCatalogModel, allow: Seq<Seq<char>>) -> ScanState
    decreases rs.len(),
{
    if rs.len() == 0 {
        ScanState { seen: Seq::empty(), withheld: Seq::empty(), granular: Seq::empty() }
    } else {
        let st = scan(rs.drop_last(), c, allow);
        let r = rs.last();
        match parse_model(r.0) {
            Err(_) => st,
            Ok(p) => {
                let key = (canonical_model(p), r.1);
                if st.seen.contains(key) {
                    st
                } else {
                    match floor_type_model(c, allow, p) {
                        Some(t) => ScanState { seen: st.seen.push(key), withheld: st.withheld.push((r.0, t)), granular: st.granular },
                        None => ScanState { seen: st.seen.push(key), withheld: st.withheld, granular: st.granular.push((p, r.1)) },
                    }
                }
            },
        }
    }
}

/// The parent directory of a pattern's base, as text: `/` for the root.
pub open spec fn parent_text(p: PatternModel) -> Seq<char> {
    if p.base.len() == 0 {
        seq!['/']
    } else if p.any_depth {
        join(p.base.drop_last())
    } else {
        render_abs(p.base.drop_last())
    }
}

pub open spec fn group_key(g: (PatternModel, DenialAccess)) -> (Seq<char>, DenialAccess) {
    (parent_text(g.0), g.1)
}

/// How many granular entries share the group key.
pub open spec fn group_size(gs: Seq<(PatternModel, DenialAccess)>, k: (Seq<char>, DenialAccess)) -> nat
    decreases gs.len(),
{
    if gs.len() == 0 {
        0
    } else {
        group_size(gs.drop_last(), k) + if group_key(gs.last()) == k { 1nat } else { 0nat }
    }
}

/// The subtree a group folds into: its parent with `/**`.
pub open spec fn fold_target(k: (Seq<char>, DenialAccess)) -> Result<PatternModel, crate::path::PathErrorModel> {
    parse_model(trim_trailing_slashes(k.0) + seq!['/', '*', '*'])
}

/// Would the folded subtree cover an access the floor withheld?
pub open spec fn covers_withheld(f: PatternModel, withheld: Seq<WithheldModel>) -> bool {
    exists|i: int| 0 <= i < withheld.len() && #[trigger] parse_model(withheld[i].0) is Ok && covers_model(f, parse_model(withheld[i].0)->Ok_0)
}

/// A group of two or more siblings folds into its parent subtree, unless the fold does not parse,
/// would itself be caught by the floor, or would cover a withheld access.
pub open spec fn folds(k: (Seq<char>, DenialAccess), st: ScanState, c: ResolvedCatalogModel, allow: Seq<Seq<char>>) -> bool {
    match fold_target(k) {
        Ok(f) => group_size(st.granular, k) >= 2 && floor_type_model(c, allow, f) is None && !covers_withheld(f, st.withheld),
        Err(_) => false,
    }
}

/// Auto-accepted inside the zone, needing review outside it.
pub open spec fn tag_of(p: PatternModel, zone: Seq<PatternModel>) -> CandidateTag {
    if exists|j: int| 0 <= j < zone.len() && covers_model(#[trigger] zone[j], p) {
        CandidateTag::AutoAccepted
    } else {
        CandidateTag::NeedsReview
    }
}

/// The granular entries of groups that do not fold, tagged, in order.
pub open spec fn unfolded(gs: Seq<(PatternModel, DenialAccess)>, st: ScanState, c: ResolvedCatalogModel, allow: Seq<Seq<char>>, zone: Seq<PatternModel>) -> Seq<CandidateModel>
    decreases gs.len(),
{
    if gs.len() == 0 {
        Seq::empty()
    } else if folds(group_key(gs.last()), st, c, allow) {
        unfolded(gs.drop_last(), st, c, allow, zone)
    } else {
        unfolded(gs.drop_last(), st, c, allow, zone).push((gs.last().0, gs.last().1, tag_of(gs.last().0, zone)))
    }
}

/// The group keys in order of first appearance.
pub open spec fn distinct_keys(gs: Seq<(PatternModel, DenialAccess)>) -> Seq<(Seq<char>, DenialAccess)>
    decreases gs.len(),
{
    if gs.len() == 0 {
        Seq::empty()
    } else if distinct_keys(gs.drop_last()).contains(group_key(gs.last())) {
        distinct_keys(gs.drop_last())
    } else {
        distinct_keys(gs.drop_last()).push(group_key(gs.last()))
    }
}

/// One folded candidate per folding group.
pub open spec fn folded(ks: Seq<(Seq<char>, DenialAccess)>, st: ScanState, c: ResolvedCatalogModel, allow: Seq<Seq<char>>, zone: Seq<PatternModel>) -> Seq<CandidateModel>
    decreases ks.len(),
{
    if ks.len() == 0 {
        Seq::empty()
    } else if folds(ks.last(), st, c, allow) {
        let f = fold_target(ks.last())->Ok_0;
        folded(ks.drop_last(), st, c, allow, zone).push((f, ks.last().1, tag_of(f, zone)))
    } else {
        folded(ks.drop_last(), st, c, allow, zone)
    }
}

/// The candidates before ordering.
pub open spec fn proposal_candidates(rs: Seq<RecordModel>, c: ResolvedCatalogModel, allow: Seq<Seq<char>>, zone: Seq<PatternModel>) -> Seq<CandidateModel> {
    let st = scan(rs, c, allow);
    unfolded(st.granular, st, c, allow, zone) + folded(distinct_keys(st.granular), st, c, allow, zone)
}

pub open spec fn access_le(a: DenialAccess, b: DenialAccess) -> bool {
    a == DenialAccess::Read || b == DenialAccess::Write
}

/// Candidates are ordered by canonical text, then access.
pub open spec fn cand_le(a: CandidateModel, b: CandidateModel) -> bool {
    chars_lt(canonical_model(a.0), canonical_model(b.0)) || (canonical_model(a.0) == canonical_model(b.0)
        && access_le(a.1, b.1))
}

pub open spec fn cands_sorted(s: Seq<CandidateModel>) -> bool {
    forall|i: int, j: int| 0 <= i < j < s.len() ==> cand_le(#[trigger] s[i], #[trigger] s[j])
}

pub open spec fn withheld_sorted(s: Seq<WithheldModel>) -> bool {
    forall|i: int, j: int| 0 <= i < j < s.len() ==> !chars_lt(#[trigger] s[j].0, #[trigger] s[i].0)
}

/// What `reverse_compile` yields: the candidates ordered by canonical text and access, the
/// withheld accesses ordered by path, each a reordering of what the passes produce.
pub open spec fn proposal_of(cands: Seq<CandidateModel>, withheld: Seq<WithheldModel>, rs: Seq<RecordModel>, c: ResolvedCatalogModel, allow: Seq<Seq<char>>, zone: Seq<PatternModel>) -> bool {
    &&& cands_sorted(cands)
    &&& cands.to_multiset() == proposal_candidates(rs, c, allow, zone).to_multiset()
    &&& withheld_sorted(withheld)
    &&& withheld.to_multiset() == scan(rs, c, allow).withheld.to_multiset()
}


pub open spec fn keys_view(v: Seq<(String, DenialAccess)>) -> Seq<(Seq<char>, DenialAccess)> {
    v.map_values(|k: (String, DenialAccess)| (k.0@, k.1))
}

pub open spec fn granular_view(v: Seq<(PathPattern, DenialAccess)>) -> Seq<(PatternModel, DenialAccess)> {
    v.map_values(|g: (PathPattern, DenialAccess)| (g.0@, g.1))
}

fn keys_contain(v: &Vec<(String, DenialAccess)>, text: &String, access: DenialAccess) -> (r: bool)
    ensures
        r == keys_view(v@).contains((text@, access)),
{
    let ghost kv = keys_view(v@);
    let mut i: usize = 0;
    while i < v.len()
        invariant
            kv == keys_view(v@),
            i <= v.len(),
            forall|j: int| 0 <= j < i ==> #[trigger] kv[j] != (text@, access),
        decreases v.len() - i,
    {
        if v[i].1 == access && crate::names::str_equal(v[i].0.as_str(), text.as_str()) {
            assert(kv[i as int] == (text@, access));
            return true;
        }
        i = i + 1;
    }
    false
}

/// The first pass, executed.
fn scan_records(records: &[AccessRecord], catalog: &ResolvedCatalog, allow: &Vec<String>) -> (r: (Vec<(String, DenialAccess)>, Vec<WithheldEntry>, Vec<(PathPattern, DenialAccess)>))
    ensures
        keys_view(r.0@) == scan(records_view(records@), catalog@, strs_view(allow@)).seen,
        withheld_view(r.1@) == scan(records_view(records@), catalog@, strs_view(allow@)).withheld,
        granular_view(r.2@) == scan(records_view(records@), catalog@, strs_view(allow@)).granular,
{
    let ghost rv = records_view(records@);
    let ghost av = strs_view(allow@);
    let mut seen: Vec<(String, DenialAccess)> = Vec::new();
    let mut withheld: Vec<WithheldEntry> = Vec::new();
    let mut granular: Vec<(PathPattern, DenialAccess)> = Vec::new();
    let mut i: usize = 0;
    assert(rv.take(0) =~= Seq::<RecordModel>::empty());
    assert(keys_view(seen@) =~= Seq::<(Seq<char>, DenialAccess)>::empty());
    assert(withheld_view(withheld@) =~= Seq::<WithheldModel>::empty());
    assert(granular_view(granular@) =~= Seq::<(PatternModel, DenialAccess)>::empty());
    while i < records.len()
        invariant
            rv == records_view(records@),
            av == strs_view(allow@),
            i <= records.len(),
            keys_view(seen@) == scan(rv.take(i as int), catalog@, av).seen,
            withheld_view(withheld@) == scan(rv.take(i as int), catalog@, av).withheld,
            granular_view(granular@) == scan(rv.take(i as int), catalog@, av).granular,
        decreases records.len() - i,
    {
        let ghost t = rv.take(i + 1);
        assert(t.drop_last() =~= rv.take(i as int));
        assert(t.last() == rv[i as int]);
        let record = &records[i];
        match PathPattern::parse(record.path.as_str()) {
            Err(_) => {},
            Ok(pattern) => {
                let text = pattern.canonical();
                if !keys_contain(&seen, &text, record.access) {
                    let ghost sb = keys_view(seen@);
                    seen.push((text, record.access));
                    assert(keys_view(seen@) =~= sb.push((canonical_model(pattern@), record.access)));
                    match catalog.floor_type_of(allow, &pattern) {
                        Some(credential_type) => {
                            let ghost wb = withheld_view(withheld@);
                            let w = WithheldEntry { path: copy_string(&record.path), credential_type };
                            withheld.push(w);
                            assert(withheld_view(withheld@) =~= wb.push((w.path@, w.credential_type@)));
                        },
                        None => {
                            let ghost gb = granular_view(granular@);
                            let acc = record.access;
                            granular.push((pattern, acc));
                            assert(granular_view(granular@) =~= gb.push((pattern@, acc)));
                        },
                    }
                }
            },
        }
        i = i + 1;
    }
    assert(rv.take(records.len() as int) =~= rv);
    (seen, withheld, granular)
}


fn group_count(granular: &Vec<(PathPattern, DenialAccess)>, text: &String, access: DenialAccess) -> (r: usize)
    ensures
        r == group_size(granular_view(granular@), (text@, access)),
{
    let ghost gv = granular_view(granular@);
    let mut n: usize = 0;
    let mut i: usize = 0;
    assert(gv.take(0) =~= Seq::<(PatternModel, DenialAccess)>::empty());
    while i < granular.len()
        invariant
            gv == granular_view(granular@),
            i <= granular.len(),
            n <= i,
            n == group_size(gv.take(i as int), (text@, access)),
        decreases granular.len() - i,
    {
        let ghost t = gv.take(i + 1);
        assert(t.drop_last() =~= gv.take(i as int));
        assert(t.last() == gv[i as int]);
        let parent = granular[i].0.parent_text();
        if granular[i].1 == access && crate::names::str_equal(parent.as_str(), text.as_str()) {
            n = n + 1;
        }
        i = i + 1;
    }
    assert(gv.take(granular.len() as int) =~= gv);
    n
}

fn fold_target_exec(text: &String) -> (r: Result<PathPattern, crate::path::PathError>)
    ensures
        crate::path::parse_result_view(r) == parse_model(trim_trailing_slashes(text@) + seq!['/', '*', '*']),
{
    let c = chars_of(text.as_str());
    let t = crate::catalog::trim_slashes(c.as_slice());
    let mut s = string_of(t.as_slice());
    push_char(&mut s, '/');
    push_char(&mut s, '*');
    push_char(&mut s, '*');
    assert(s@ =~= trim_trailing_slashes(text@) + seq!['/', '*', '*']);
    PathPattern::parse(s.as_str())
}

fn covers_withheld_exec(f: &PathPattern, withheld: &Vec<WithheldEntry>) -> (r: bool)
    ensures
        r == covers_withheld(f@, withheld_view(withheld@)),
{
    let ghost wv = withheld_view(withheld@);
    let mut i: usize = 0;
    while i < withheld.len()
        invariant
            wv == withheld_view(withheld@),
            i <= withheld.len(),
            forall|j: int| 0 <= j < i ==> !(#[trigger] parse_model(wv[j].0) is Ok && covers_model(f@, parse_model(wv[j].0)->Ok_0)),
        decreases withheld.len() - i,
    {
        assert(wv[i as int].0 == withheld@[i as int].path@);
        match PathPattern::parse(withheld[i].path.as_str()) {
            Ok(p) => {
                if f.covers(&p) {
                    return true;
                }
            },
            Err(_) => {},
        }
        i = i + 1;
    }
    false
}

fn fold_of(text: &String, access: DenialAccess, granular: &Vec<(PathPattern, DenialAccess)>, withheld: &Vec<WithheldEntry>, catalog: &ResolvedCatalog, allow: &Vec<String>) -> (r: Option<PathPattern>)
    ensures
        match r {
            Some(f) => folds((text@, access), ScanState { seen: Seq::empty(), withheld: withheld_view(withheld@), granular: granular_view(granular@) }, catalog@, strs_view(allow@))
                && fold_target((text@, access)) == Ok::<PatternModel, crate::path::PathErrorModel>(f@),
            None => !folds((text@, access), ScanState { seen: Seq::empty(), withheld: withheld_view(withheld@), granular: granular_view(granular@) }, catalog@, strs_view(allow@)),
        },
{
    match fold_target_exec(text) {
        Ok(f) => {
            if group_count(granular, text, access) >= 2 && catalog.floor_type_of(allow, &f).is_none() && !covers_withheld_exec(&f, withheld) {
                Some(f)
            } else {
                None
            }
        },
        Err(_) => None,
    }
}

fn tag_exec(p: &PathPattern, zone: &Vec<PathPattern>) -> (r: CandidateTag)
    ensures
        r == tag_of(p@, pats_view(zone@)),
{
    let ghost zv = pats_view(zone@);
    let mut i: usize = 0;
    while i < zone.len()
        invariant
            zv == pats_view(zone@),
            i <= zone.len(),
            forall|j: int| 0 <= j < i ==> !covers_model(#[trigger] zv[j], p@),
        decreases zone.len() - i,
    {
        if zone[i].covers(p) {
            assert(covers_model(zv[i as int], p@));
            return CandidateTag::AutoAccepted;
        }
        i = i + 1;
    }
    CandidateTag::NeedsReview
}


proof fn lemma_cand_le_total(a: CandidateModel, b: CandidateModel)
    ensures
        cand_le(a, b) || cand_le(b, a),
{
    lemma_chars_lt_total(canonical_model(a.0), canonical_model(b.0));
}

proof fn lemma_cand_le_transitive(a: CandidateModel, b: CandidateModel, c: CandidateModel)
    requires
        cand_le(a, b),
        cand_le(b, c),
    ensures
        cand_le(a, c),
{
    let (x, y, z) = (canonical_model(a.0), canonical_model(b.0), canonical_model(c.0));
    if chars_lt(x, y) && chars_lt(y, z) {
        lemma_chars_lt_transitive(x, y, z);
    }
}

fn le_key(a: &Candidate, key: &str, access: DenialAccess) -> (r: bool)
    ensures
        r == (chars_lt(canonical_model(a.pattern@), key@) || (canonical_model(a.pattern@) == key@ && access_le(a.access, access))),
{
    let k = a.pattern.canonical();
    crate::names::str_less(k.as_str(), key) || (crate::names::str_equal(k.as_str(), key) && (a.access == DenialAccess::Read || access == DenialAccess::Write))
}

/// Inserts `c` after every candidate not above it, keeping the list ordered.
fn insert_candidate(v: &mut Vec<Candidate>, c: Candidate)
    requires
        cands_sorted(cands_view(old(v)@)),
    ensures
        cands_sorted(cands_view(final(v)@)),
        cands_view(final(v)@).to_multiset() == cands_view(old(v)@).to_multiset().insert((c.pattern@, c.access, c.tag)),
{
    let ghost ov = cands_view(v@);
    let ghost cm = (c.pattern@, c.access, c.tag);
    let key = c.pattern.canonical();
    let mut i: usize = 0;
    while i < v.len() && le_key(&v[i], key.as_str(), c.access)
        invariant
            ov == cands_view(v@),
            cands_sorted(ov),
            key@ == canonical_model(cm.0),
            cm == (c.pattern@, c.access, c.tag),
            i <= v.len(),
            forall|k: int| 0 <= k < i ==> cand_le(#[trigger] ov[k], cm),
        decreases v.len() - i,
    {
        assert(ov[i as int] == (v@[i as int].pattern@, v@[i as int].access, v@[i as int].tag));
        i = i + 1;
    }
    proof {
        if i < v.len() {
            assert(ov[i as int] == (v@[i as int].pattern@, v@[i as int].access, v@[i as int].tag));
            lemma_cand_le_total(ov[i as int], cm);
        }
    }
    v.insert(i, c);
    let ghost nv = cands_view(v@);
    assert(nv =~= ov.insert(i as int, cm));
    assert forall|a: int, b: int| 0 <= a < b < nv.len() implies cand_le(#[trigger] nv[a], #[trigger] nv[b]) by {
        if b < i {
        } else if a < i && b == i {
        } else if a < i && b > i {
            assert(cand_le(ov[a], ov[b - 1]));
        } else if a == i {
            assert(cand_le(cm, ov[i as int]));
            if b - 1 > i {
                assert(cand_le(ov[i as int], ov[b - 1]));
                lemma_cand_le_transitive(cm, ov[i as int], ov[b - 1]);
            }
        } else {
            assert(cand_le(ov[a - 1], ov[b - 1]));
        }
    }
}

fn insert_withheld(v: &mut Vec<WithheldEntry>, w: WithheldEntry)
    requires
        withheld_sorted(withheld_view(old(v)@)),
    ensures
        withheld_sorted(withheld_view(final(v)@)),
        withheld_view(final(v)@).to_multiset() == withheld_view(old(v)@).to_multiset().insert((w.path@, w.credential_type@)),
{
    let ghost ov = withheld_view(v@);
    let ghost wm = (w.path@, w.credential_type@);
    let mut i: usize = 0;
    while i < v.len() && !crate::names::str_less(w.path.as_str(), v[i].path.as_str())
        invariant
            ov == withheld_view(v@),
            withheld_sorted(ov),
            wm == (w.path@, w.credential_type@),
            i <= v.len(),
            forall|k: int| 0 <= k < i ==> !chars_lt(wm.0, #[trigger] ov[k].0),
        decreases v.len() - i,
    {
        assert(ov[i as int].0 == v@[i as int].path@);
        i = i + 1;
    }
    proof {
        if i < v.len() {
            assert(ov[i as int].0 == v@[i as int].path@);
        }
    }
    v.insert(i, w);
    let ghost nv = withheld_view(v@);
    assert(nv =~= ov.insert(i as int, wm));
    assert forall|a: int, b: int| 0 <= a < b < nv.len() implies !chars_lt(#[trigger] nv[b].0, #[trigger] nv[a].0) by {
        if b < i {
        } else if a < i && b == i {
        } else if a < i && b > i {
            assert(!chars_lt(ov[b - 1].0, ov[a].0));
        } else if a == i {
            assert(chars_lt(wm.0, ov[i as int].0));
            if b - 1 > i {
                assert(!chars_lt(ov[b - 1].0, ov[i as int].0));
                lemma_chars_lt_total(ov[b - 1].0, ov[i as int].0);
                if ov[b - 1].0 == ov[i as int].0 {
                } else {
                    lemma_chars_lt_transitive(wm.0, ov[i as int].0, ov[b - 1].0);
                }
            }
            lemma_chars_lt_asymmetric(wm.0, nv[b].0);
        } else {
            assert(!chars_lt(ov[b - 1].0, ov[a - 1].0));
        }
    }
}

/// Accesses become tagged candidates. Deterministic: repeats are dropped and the output is
/// ordered; sibling paths (two or more sharing a parent, same access) fold into one `parent/**`
/// candidate unless the folded pattern would cross the credential floor, in which case the
/// individual paths stand.
pub fn reverse_compile(records: &[AccessRecord], catalog: &ResolvedCatalog, allow: &Vec<String>, auto_widen: &Vec<PathPattern>) -> (r: ProposalOutcome)
    ensures
        proposal_of(cands_view(r.candidates@), withheld_view(r.withheld@), records_view(records@), catalog@, strs_view(allow@), pats_view(auto_widen@)),
{
    let ghost rv = records_view(records@);
    let ghost av = strs_view(allow@);
    let ghost zv = pats_view(auto_widen@);
    let (seen, withheld, granular) = scan_records(records, catalog, allow);
    let ghost st = scan(rv, catalog@, av);
    let ghost gv = granular_view(granular@);
    // granular entries of groups that do not fold
    let mut raw: Vec<Candidate> = Vec::new();
    let mut i: usize = 0;
    assert(gv.take(0) =~= Seq::<(PatternModel, DenialAccess)>::empty());
    assert(cands_view(raw@) =~= Seq::<CandidateModel>::empty());
    while i < granular.len()
        invariant
            gv == granular_view(granular@),
            st == scan(rv, catalog@, av),
            gv == st.granular,
            withheld_view(withheld@) == st.withheld,
            zv == pats_view(auto_widen@),
            av == strs_view(allow@),
            i <= granular.len(),
            cands_view(raw@) == unfolded(gv.take(i as int), st, catalog@, av, zv),
        decreases granular.len() - i,
    {
        let ghost t = gv.take(i + 1);
        assert(t.drop_last() =~= gv.take(i as int));
        assert(t.last() == gv[i as int]);
        let parent = granular[i].0.parent_text();
        match fold_of(&parent, granular[i].1, &granular, &withheld, catalog, allow) {
            Some(_) => {},
            None => {
                let p = granular[i].0.copy();
                let tag = tag_exec(&p, auto_widen);
                let ghost before = cands_view(raw@);
                let c = Candidate { pattern: p, access: granular[i].1, tag };
                raw.push(c);
                assert(cands_view(raw@) =~= before.push((c.pattern@, c.access, c.tag)));
            },
        }
        i = i + 1;
    }
    assert(gv.take(granular.len() as int) =~= gv);
    // the group keys, in order of first appearance
    let mut keys: Vec<(String, DenialAccess)> = Vec::new();
    let mut j: usize = 0;
    assert(keys_view(keys@) =~= Seq::<(Seq<char>, DenialAccess)>::empty());
    while j < granular.len()
        invariant
            gv == granular_view(granular@),
            j <= granular.len(),
            keys_view(keys@) == distinct_keys(gv.take(j as int)),
        decreases granular.len() - j,
    {
        let ghost t = gv.take(j + 1);
        assert(t.drop_last() =~= gv.take(j as int));
        assert(t.last() == gv[j as int]);
        let parent = granular[j].0.parent_text();
        let acc = granular[j].1;
        if !keys_contain(&keys, &parent, acc) {
            let ghost before = keys_view(keys@);
            keys.push((parent, acc));
            assert(keys_view(keys@) =~= before.push((parent@, acc)));
        }
        j = j + 1;
    }
    assert(gv.take(granular.len() as int) =~= gv);
    let ghost kv = keys_view(keys@);
    let ghost unf = cands_view(raw@);
    let mut folded_list: Vec<Candidate> = Vec::new();
    let mut m: usize = 0;
    assert(kv.take(0) =~= Seq::<(Seq<char>, DenialAccess)>::empty());
    assert(cands_view(folded_list@) =~= Seq::<CandidateModel>::empty());
    while m < keys.len()
        invariant
            kv == keys_view(keys@),
            gv == granular_view(granular@),
            st == scan(rv, catalog@, av),
            gv == st.granular,
            withheld_view(withheld@) == st.withheld,
            zv == pats_view(auto_widen@),
            av == strs_view(allow@),
            m <= keys.len(),
            cands_view(folded_list@) == folded(kv.take(m as int), st, catalog@, av, zv),
        decreases keys.len() - m,
    {
        let ghost t = kv.take(m + 1);
        assert(t.drop_last() =~= kv.take(m as int));
        assert(t.last() == kv[m as int]);
        match fold_of(&keys[m].0, keys[m].1, &granular, &withheld, catalog, allow) {
            Some(f) => {
                let tag = tag_exec(&f, auto_widen);
                let ghost before = cands_view(folded_list@);
                let c = Candidate { pattern: f, access: keys[m].1, tag };
                folded_list.push(c);
                assert(cands_view(folded_list@) =~= before.push((c.pattern@, c.access, c.tag)));
            },
            None => {},
        }
        m = m + 1;
    }
    assert(kv.take(keys.len() as int) =~= kv);
    let ghost fol = cands_view(folded_list@);
    raw.append(&mut folded_list);
    assert(cands_view(raw@) =~= unf + fol);
    // order the candidates
    let ghost all = cands_view(raw@);
    let mut candidates: Vec<Candidate> = Vec::new();
    let mut k: usize = 0;
    assert(all.take(0) =~= Seq::<CandidateModel>::empty());
    while k < raw.len()
        invariant
            all == cands_view(raw@),
            k <= raw.len(),
            cands_sorted(cands_view(candidates@)),
            cands_view(candidates@).to_multiset() == all.take(k as int).to_multiset(),
        decreases raw.len() - k,
    {
        let c = Candidate { pattern: raw[k].pattern.copy(), access: raw[k].access, tag: raw[k].tag };
        insert_candidate(&mut candidates, c);
        assert(all.take(k + 1) =~= all.take(k as int).push(all[k as int]));
        k = k + 1;
    }
    assert(all.take(raw.len() as int) =~= all);
    // order the withheld accesses
    let ghost wv = withheld_view(withheld@);
    let mut ordered: Vec<WithheldEntry> = Vec::new();
    let mut w: usize = 0;
    assert(wv.take(0) =~= Seq::<WithheldModel>::empty());
    while w < withheld.len()
        invariant
            wv == withheld_view(withheld@),
            w <= withheld.len(),
            withheld_sorted(withheld_view(ordered@)),
            withheld_view(ordered@).to_multiset() == wv.take(w as int).to_multiset(),
        decreases withheld.len() - w,
    {
        let e = WithheldEntry { path: copy_string(&withheld[w].path), credential_type: copy_string(&withheld[w].credential_type) };
        insert_withheld(&mut ordered, e);
        assert(wv.take(w + 1) =~= wv.take(w as int).push(wv[w as int]));
        w = w + 1;
    }
    assert(wv.take(withheld.len() as int) =~= wv);
    ProposalOutcome { candidates, withheld: ordered }
}


/// The patterns of the candidates with the given access, in order.
pub open spec fn patterns_with(cs: Seq<CandidateModel>, a: DenialAccess) -> Seq<PatternModel>
    decreases cs.len(),
{
    if cs.len() == 0 {
        Seq::empty()
    } else if cs.last().1 == a {
        patterns_with(cs.drop_last(), a).push(cs.last().0)
    } else {
        patterns_with(cs.drop_last(), a)
    }
}

proof fn lemma_patterns_with_contains(cs: Seq<CandidateModel>, a: DenialAccess, p: PatternModel)
    ensures
        patterns_with(cs, a).contains(p) <==> exists|i: int| 0 <= i < cs.len() && #[trigger] cs[i].0 == p && cs[i].1 == a,
    decreases cs.len(),
{
    if cs.len() > 0 {
        lemma_patterns_with_contains(cs.drop_last(), a, p);
        let q = patterns_with(cs.drop_last(), a);
        if cs.last().1 == a {
            let n = q.push(cs.last().0);
            if n.contains(p) && p != cs.last().0 {
                let k = choose|k: int| 0 <= k < n.len() && n[k] == p;
                assert(q[k] == p);
            }
            if q.contains(p) {
                let k = choose|k: int| 0 <= k < q.len() && q[k] == p;
                assert(n[k] == p);
            }
            if p == cs.last().0 {
                assert(n[q.len() as int] == p);
            }
        }
        if exists|i: int| 0 <= i < cs.len() && #[trigger] cs[i].0 == p && cs[i].1 == a {
            let i = choose|i: int| 0 <= i < cs.len() && #[trigger] cs[i].0 == p && cs[i].1 == a;
            if i < cs.len() - 1 {
                assert(cs.drop_last()[i] == cs[i]);
            }
        }
        if exists|i: int| 0 <= i < cs.drop_last().len() && #[trigger] cs.drop_last()[i].0 == p && cs.drop_last()[i].1 == a {
            let i = choose|i: int| 0 <= i < cs.drop_last().len() && #[trigger] cs.drop_last()[i].0 == p && cs.drop_last()[i].1 == a;
            assert(cs[i] == cs.drop_last()[i]);
        }
    }
}

/// Lists holding the same candidates (in any order) have the same patterns per access.
proof fn lemma_patterns_same_members(x: Seq<CandidateModel>, y: Seq<CandidateModel>, a: DenialAccess)
    requires
        x.to_multiset() == y.to_multiset(),
    ensures
        forall|p: PatternModel| patterns_with(x, a).contains(p) <==> patterns_with(y, a).contains(p),
{
    assert forall|p: PatternModel| patterns_with(x, a).contains(p) <==> patterns_with(y, a).contains(p) by {
        lemma_patterns_with_contains(x, a, p);
        lemma_patterns_with_contains(y, a, p);
        if patterns_with(x, a).contains(p) {
            let i = choose|i: int| 0 <= i < x.len() && #[trigger] x[i].0 == p && x[i].1 == a;
            assert(x.to_multiset().count(x[i]) > 0);
            assert(y.contains(x[i]));
            let j = choose|j: int| 0 <= j < y.len() && y[j] == x[i];
            assert(y[j].0 == p && y[j].1 == a);
        }
        if patterns_with(y, a).contains(p) {
            let i = choose|i: int| 0 <= i < y.len() && #[trigger] y[i].0 == p && y[i].1 == a;
            assert(y.to_multiset().count(y[i]) > 0);
            assert(x.contains(y[i]));
            let j = choose|j: int| 0 <= j < x.len() && x[j] == y[i];
            assert(x[j].0 == p && x[j].1 == a);
        }
    }
}

fn patterns_of(cands: &Vec<Candidate>, a: DenialAccess) -> (r: Vec<PathPattern>)
    ensures
        pats_view(r@) == patterns_with(cands_view(cands@), a),
{
    let ghost cv = cands_view(cands@);
    let mut out: Vec<PathPattern> = Vec::new();
    let mut i: usize = 0;
    assert(cv.take(0) =~= Seq::<CandidateModel>::empty());
    assert(pats_view(out@) =~= Seq::<PatternModel>::empty());
    while i < cands.len()
        invariant
            cv == cands_view(cands@),
            i <= cands.len(),
            pats_view(out@) == patterns_with(cv.take(i as int), a),
        decreases cands.len() - i,
    {
        let ghost t = cv.take(i + 1);
        assert(t.drop_last() =~= cv.take(i as int));
        assert(t.last() == cv[i as int]);
        if cands[i].access == a {
            let p = cands[i].pattern.copy();
            let ghost before = pats_view(out@);
            out.push(p);
            assert(pats_view(out@) =~= before.push(p@));
        }
        i = i + 1;
    }
    assert(cv.take(cands.len() as int) =~= cv);
    out
}

/// Observed accesses become a standalone, enforceable blueprint: closed reads, the read and
/// write grades as separate grant sets, and the credential exclusions carried along so the
/// artifact justifies the grants it holds. Shares the reverse compiler, so the floor still
/// withholds catalog matches: a recorded credential access never becomes a grant.
pub fn synthesize_blueprint(records: &[AccessRecord], catalog: &ResolvedCatalog, allow: &Vec<String>) -> (r: Blueprint)
    ensures
        r@.fs.read_mode == ReadMode::Closed,
        canonical_set_of(r@.fs.reads, patterns_with(proposal_candidates(records_view(records@), catalog@, strs_view(allow@), Seq::empty()), DenialAccess::Read)),
        canonical_set_of(r@.fs.writes, patterns_with(proposal_candidates(records_view(records@), catalog@, strs_view(allow@), Seq::empty()), DenialAccess::Write)),
        r@.fs.writes_no_create.len() == 0,
        r@.fs.subtract.len() == 0,
        r@.fs.write_subtract.len() == 0,
        r@.allow_credentials == strs_view(allow@),
        r@.net == crate::blueprint::empty_blueprint().net,
        r@.exec_posture == crate::blueprint::empty_blueprint().exec_posture,
        r@.env == crate::blueprint::empty_blueprint().env,
        r@.mcp.len() == 0,
        r@.auto_widen.len() == 0,
{
    let zone: Vec<PathPattern> = Vec::new();
    assert(pats_view(zone@) =~= Seq::<PatternModel>::empty());
    let outcome = reverse_compile(records, catalog, allow, &zone);
    let reads = patterns_of(&outcome.candidates, DenialAccess::Read);
    let writes = patterns_of(&outcome.candidates, DenialAccess::Write);
    let ghost pc = proposal_candidates(records_view(records@), catalog@, strs_view(allow@), Seq::empty());
    let mut bp = Blueprint::empty();
    bp.fs.reads = canonicalize_set(reads.as_slice());
    bp.fs.writes = canonicalize_set(writes.as_slice());
    bp.allow_credentials = copy_strings(allow);
    proof {
        lemma_patterns_same_members(cands_view(outcome.candidates@), pc, DenialAccess::Read);
        lemma_patterns_same_members(cands_view(outcome.candidates@), pc, DenialAccess::Write);
        crate::path_set::lemma_canonical_same_members(bp@.fs.reads, pats_view(reads@), patterns_with(pc, DenialAccess::Read));
        crate::path_set::lemma_canonical_same_members(bp@.fs.writes, pats_view(writes@), patterns_with(pc, DenialAccess::Write));
    }
    bp
}


proof fn lemma_granular_unfloored(rs: Seq<RecordModel>, c: ResolvedCatalogModel, allow: Seq<Seq<char>>, i: int)
    requires
        0 <= i < scan(rs, c, allow).granular.len(),
    ensures
        floor_type_model(c, allow, scan(rs, c, allow).granular[i].0) is None,
    decreases rs.len(),
{
    let st = scan(rs.drop_last(), c, allow);
    if i < st.granular.len() {
        lemma_granular_unfloored(rs.drop_last(), c, allow, i);
    }
}

proof fn lemma_unfolded_from(gs: Seq<(PatternModel, DenialAccess)>, st: ScanState, c: ResolvedCatalogModel, allow: Seq<Seq<char>>, zone: Seq<PatternModel>, x: CandidateModel)
    requires
        unfolded(gs, st, c, allow, zone).contains(x),
    ensures
        exists|i: int| 0 <= i < gs.len() && #[trigger] gs[i].0 == x.0,
    decreases gs.len(),
{
    let u = unfolded(gs.drop_last(), st, c, allow, zone);
    if folds(group_key(gs.last()), st, c, allow) {
        lemma_unfolded_from(gs.drop_last(), st, c, allow, zone, x);
        let i = choose|i: int| 0 <= i < gs.drop_last().len() && #[trigger] gs.drop_last()[i].0 == x.0;
        assert(gs[i] == gs.drop_last()[i]);
    } else {
        let n = u.push((gs.last().0, gs.last().1, tag_of(gs.last().0, zone)));
        let k = choose|k: int| 0 <= k < n.len() && n[k] == x;
        if k == u.len() {
            assert(gs[gs.len() - 1].0 == x.0);
        } else {
            assert(u[k] == x);
            lemma_unfolded_from(gs.drop_last(), st, c, allow, zone, x);
            let i = choose|i: int| 0 <= i < gs.drop_last().len() && #[trigger] gs.drop_last()[i].0 == x.0;
            assert(gs[i] == gs.drop_last()[i]);
        }
    }
}

proof fn lemma_folded_from(ks: Seq<(Seq<char>, DenialAccess)>, st: ScanState, c: ResolvedCatalogModel, allow: Seq<Seq<char>>, zone: Seq<PatternModel>, x: CandidateModel)
    requires
        folded(ks, st, c, allow, zone).contains(x),
    ensures
        exists|k: (Seq<char>, DenialAccess)| #[trigger] folds(k, st, c, allow) && fold_target(k) == Ok::<PatternModel, crate::path::PathErrorModel>(x.0),
    decreases ks.len(),
{
    let f = folded(ks.drop_last(), st, c, allow, zone);
    if folds(ks.last(), st, c, allow) {
        let t = fold_target(ks.last())->Ok_0;
        let n = f.push((t, ks.last().1, tag_of(t, zone)));
        let k = choose|k: int| 0 <= k < n.len() && n[k] == x;
        if k == f.len() {
            assert(folds(ks.last(), st, c, allow));
        } else {
            assert(f[k] == x);
            lemma_folded_from(ks.drop_last(), st, c, allow, zone, x);
        }
    } else {
        lemma_folded_from(ks.drop_last(), st, c, allow, zone, x);
    }
}

/// The floor never yields a candidate: whatever the zone, the attempt count, or the grouping,
/// no proposed pattern is one the credential floor catches.
pub proof fn floored_access_is_never_proposed(
    cands: Seq<CandidateModel>,
    withheld: Seq<WithheldModel>,
    rs: Seq<RecordModel>,
    c: ResolvedCatalogModel,
    allow: Seq<Seq<char>>,
    zone: Seq<PatternModel>,
)
    requires
        proposal_of(cands, withheld, rs, c, allow, zone),
    ensures
        forall|i: int| 0 <= i < cands.len() ==> floor_type_model(c, allow, #[trigger] cands[i].0) is None,
{
    let st = scan(rs, c, allow);
    let pc = proposal_candidates(rs, c, allow, zone);
    let u = unfolded(st.granular, st, c, allow, zone);
    let f = folded(distinct_keys(st.granular), st, c, allow, zone);
    assert forall|i: int| 0 <= i < cands.len() implies floor_type_model(c, allow, #[trigger] cands[i].0) is None by {
        let x = cands[i];
        assert(cands.to_multiset().count(x) > 0);
        assert(pc.contains(x));
        let k = choose|k: int| 0 <= k < pc.len() && pc[k] == x;
        if k < u.len() {
            assert(u[k] == x);
            lemma_unfolded_from(st.granular, st, c, allow, zone, x);
            let j = choose|j: int| 0 <= j < st.granular.len() && #[trigger] st.granular[j].0 == x.0;
            lemma_granular_unfloored(rs, c, allow, j);
        } else {
            assert(f[k - u.len()] == x);
            lemma_folded_from(distinct_keys(st.granular), st, c, allow, zone, x);
        }
    }
}

} // verus!
