//! Observe-then-widen: the decisions behind a learning run and its acceptance. A learning run is
//! an enforced run plus observation; the denials it logged are reverse-compiled into a proposal
//! of candidates, which accumulates across runs (unreviewed entries are sticky, re-observed ones
//! are refreshed). Acceptance is per entry and re-checks the credential floor with no exclusions,
//! so not even a forged proposal moves a catalog location into the discovered layer. Reading the
//! denial feed and the files is the caller's; everything decided lives here.

use vstd::prelude::*;
use crate::catalog::{floor_type_model, ResolvedCatalog};
use crate::discovery::{AccessRecord, Candidate, CandidateModel, CandidateTag, DenialAccess, ProposalOutcome};
use crate::layer::{BlueprintLayer, LayerModel, ProvenanceEntry};
use crate::names::{copy_string, map_get, map_keys, names_sorted, strs_view, NameMap};
use crate::path::{canonical_model, find_from, PathPattern, PatternModel};
use crate::path_set::{canonical_set_of, canonicalize_set, pats_view};
use crate::text::{chars_eq_str, chars_of, decimal, has_prefix, push_char, push_decimal, push_str, starts_with, string_of};

verus! {

// ---------------------------------------------------------------------------------------------
// The proposal artifact

/// One reviewable candidate and the learning run that (last) observed it.
#[derive(Clone, Debug, PartialEq, Eq)]
pub struct ProposalEntry {
    pub candidate: Candidate,
    pub run_id: String,
}

pub type EntryModel = (CandidateModel, Seq<char>);

impl View for ProposalEntry {
    type V = EntryModel;

    open spec fn view(&self) -> EntryModel {
        ((self.candidate.pattern@, self.candidate.access, self.candidate.tag), self.run_id@)
    }
}

pub open spec fn entries_view(v: Seq<ProposalEntry>) -> Seq<EntryModel> {
    v.map_values(|e: ProposalEntry| e@)
}

/// The proposal file: the blueprint it was learned against and its candidates. Withheld
/// credential matches are never written here.
#[derive(Clone, Debug, PartialEq, Eq)]
pub struct ProposalFile {
    pub blueprint: String,
    pub candidates: Vec<ProposalEntry>,
}

impl ProposalEntry {
    pub fn copy(&self) -> (r: ProposalEntry)
        ensures
            r@ == self@,
    {
        ProposalEntry {
            candidate: Candidate {
                pattern: self.candidate.pattern.copy(),
                access: self.candidate.access,
                tag: self.candidate.tag,
            },
            run_id: copy_string(&self.run_id),
        }
    }
}

/// The proposal beside a blueprint (given by its canonical path).
pub fn proposal_path(canonical_blueprint: &str) -> (r: String)
    ensures
        r@ == canonical_blueprint@ + ".proposal.toml"@,
{
    let mut out = String::new();
    push_str(&mut out, canonical_blueprint);
    push_str(&mut out, ".proposal.toml");
    out
}

/// The discovered layer beside a blueprint (given by its canonical path).
pub fn discovered_path(canonical_blueprint: &str) -> (r: String)
    ensures
        r@ == canonical_blueprint@ + ".discovered.toml"@,
{
    let mut out = String::new();
    push_str(&mut out, canonical_blueprint);
    push_str(&mut out, ".discovered.toml");
    out
}

// ---------------------------------------------------------------------------------------------
// The denial feed

/// One sandbox log record, `Sandbox: cat(29810) deny(1) file-read-data /private/tmp/x`: the
/// operation and kernel-resolved path after `deny(..) `; file writes are write denials, file
/// reads and exec denials read denials; anything else is not filesystem material.
pub open spec fn denial_of(event: Seq<char>) -> Option<(Seq<char>, DenialAccess)> {
    let message = if starts_with(event, "Sandbox: "@) {
        event.skip("Sandbox: "@.len() as int)
    } else {
        event
    };
    match find_from(message, " deny("@, 0) {
        None => None,
        Some(d) => {
            let rest = message.skip(d + 1);
            match find_from(rest, ") "@, 0) {
                None => None,
                Some(c) => {
                    let tail = rest.skip(c + 2);
                    match find_from(tail, " "@, 0) {
                        None => None,
                        Some(sp) => {
                            let op = tail.take(sp);
                            let path = tail.skip(sp + 1);
                            if !starts_with(path, "/"@) {
                                None
                            } else if starts_with(op, "file-write"@) {
                                Some((path, DenialAccess::Write))
                            } else if starts_with(op, "file-read"@) || op == "process-exec"@ {
                                Some((path, DenialAccess::Read))
                            } else {
                                None
                            }
                        },
                    }
                },
            }
        },
    }
}

/// The first occurrence of `pat` in `s` at or after `from`.
pub fn find_text(s: &[char], pat: &str, from: usize) -> (r: Option<usize>)
    ensures
        match r {
            Some(k) => find_from(s@, pat@, from as int) == Some(k as int),
            None => find_from(s@, pat@, from as int) is None,
        },
{
    let p = chars_of(pat);
    if p.len() == 0 || from > s.len() || s.len() - from < p.len() {
        return None;
    }
    let mut i: usize = from;
    while i <= s.len() - p.len()
        invariant
            p@ == pat@,
            p.len() > 0,
            p.len() <= s.len(),
            from <= i,
            find_from(s@, pat@, from as int) == find_from(s@, pat@, i as int),
        decreases s.len() - i,
    {
        let mut j: usize = 0;
        let mut same = true;
        while j < p.len()
            invariant
                i + p.len() <= s.len(),
                j <= p.len(),
                same == (forall|k: int| 0 <= k < j ==> s@[i + k] == p@[k]),
            decreases p.len() - j,
        {
            if s[i + j] != p[j] {
                same = false;
            }
            j = j + 1;
        }
        if same {
            assert(s@.subrange(i as int, i + p.len()) =~= p@);
            return Some(i);
        }
        assert(s@.subrange(i as int, i + p.len()) != p@) by {
            let k = choose|k: int| 0 <= k < p.len() && s@[i + k] != p@[k];
            assert(s@.subrange(i as int, i + p.len())[k] == s@[i + k]);
        }
        i = i + 1;
    }
    None
}

/// Reads one sandbox log record.
pub fn parse_sandbox_denial(event_message: &str) -> (r: Option<AccessRecord>)
    ensures
        match r {
            Some(rec) => denial_of(event_message@) == Some((rec.path@, rec.access)),
            None => denial_of(event_message@) is None,
        },
{
    let ev = chars_of(event_message);
    let ghost prefix = "Sandbox: "@;
    let message = if has_prefix(ev.as_slice(), "Sandbox: ") {
        let n = chars_of("Sandbox: ").len();
        crate::text::slice_chars(ev.as_slice(), n, ev.len())
    } else {
        ev
    };
    assert(message@ == (if starts_with(event_message@, prefix) { event_message@.skip(prefix.len() as int) } else { event_message@ }));
    let d = match find_text(message.as_slice(), " deny(", 0) {
        None => return None,
        Some(d) => d,
    };
    proof {
        crate::path::lemma_find_from_some(message@, " deny("@, 0, d as int);
        assert(" deny("@.len() == 6) by {
            reveal_strlit(" deny(");
        }
        assert(d + 6 <= message@.len());
    }
    assert(d < message.len());
    let d1: usize = d + 1;
    let rest = crate::text::slice_chars(message.as_slice(), d1, message.len());
    assert(rest@ =~= message@.skip(d + 1));
    let c = match find_text(rest.as_slice(), ") ", 0) {
        None => return None,
        Some(c) => c,
    };
    proof {
        crate::path::lemma_find_from_some(rest@, ") "@, 0, c as int);
        assert(") "@.len() == 2) by {
            reveal_strlit(") ");
        }
    }
    let tail = crate::text::slice_chars(rest.as_slice(), c + 2, rest.len());
    assert(tail@ =~= rest@.skip(c + 2));
    let sp = match find_text(tail.as_slice(), " ", 0) {
        None => return None,
        Some(sp) => sp,
    };
    proof {
        crate::path::lemma_find_from_some(tail@, " "@, 0, sp as int);
        assert(" "@.len() == 1) by {
            reveal_strlit(" ");
        }
    }
    let op = crate::text::slice_chars(tail.as_slice(), 0, sp);
    let path = crate::text::slice_chars(tail.as_slice(), sp + 1, tail.len());
    assert(op@ =~= tail@.take(sp as int));
    assert(path@ =~= tail@.skip(sp + 1));
    if !has_prefix(path.as_slice(), "/") {
        return None;
    }
    let access = if has_prefix(op.as_slice(), "file-write") {
        DenialAccess::Write
    } else if has_prefix(op.as_slice(), "file-read") || chars_eq_str(op.as_slice(), "process-exec") {
        DenialAccess::Read
    } else {
        return None;
    };
    Some(AccessRecord { path: string_of(path.as_slice()), access })
}

/// One line of the log's ndjson output: the sandbox record its `eventMessage` carries.
pub open spec fn log_line_record(line: Seq<u8>) -> Option<(Seq<char>, DenialAccess)> {
    match crate::gateway::json_str_at(line, "/eventMessage"@) {
        Some(message) => denial_of(message),
        None => None,
    }
}

/// Reads one line of the denial feed (a JSON object per line); lines that are not JSON, carry no
/// message, or are not filesystem denials yield nothing.
pub fn log_line_denial(line: &[u8]) -> (r: Option<AccessRecord>)
    ensures
        match r {
            Some(rec) => log_line_record(line@) == Some((rec.path@, rec.access)),
            None => log_line_record(line@) is None,
        },
{
    match crate::gateway::json_str_exec(line, "/eventMessage") {
        Some(message) => parse_sandbox_denial(message.as_str()),
        None => None,
    }
}

/// Two reads of the denial feed agree.
pub fn same_records(a: &Vec<AccessRecord>, b: &Vec<AccessRecord>) -> (r: bool)
    ensures
        r == (crate::discovery::records_view(a@) == crate::discovery::records_view(b@)),
{
    let ghost av = crate::discovery::records_view(a@);
    let ghost bv = crate::discovery::records_view(b@);
    if a.len() != b.len() {
        assert(av.len() != bv.len());
        return false;
    }
    let mut i: usize = 0;
    while i < a.len()
        invariant
            a.len() == b.len(),
            av == crate::discovery::records_view(a@),
            bv == crate::discovery::records_view(b@),
            i <= a.len(),
            forall|k: int| 0 <= k < i ==> av[k] == bv[k],
        decreases a.len() - i,
    {
        if !crate::names::str_equal(a[i].path.as_str(), b[i].path.as_str()) || a[i].access != b[i].access {
            assert(av[i as int] != bv[i as int]);
            return false;
        }
        i = i + 1;
    }
    assert(av =~= bv);
    true
}

/// Polling the feed to quiescence: after each re-read, stop once two consecutive reads agree and
/// the settle floor has passed, or once the cap is reached (what was read is kept either way).
pub fn quiescence_reached(last: &Vec<AccessRecord>, next: &Vec<AccessRecord>, elapsed_ms: u64, min_settle_ms: u64) -> (r: bool)
    ensures
        r == (crate::discovery::records_view(last@) == crate::discovery::records_view(next@) && elapsed_ms >= min_settle_ms),
{
    same_records(last, next) && elapsed_ms >= min_settle_ms
}

// ---------------------------------------------------------------------------------------------
// Merging a run's candidates into the proposal

/// Entries are keyed by their pattern's canonical text and their access.
pub open spec fn entry_key(e: EntryModel) -> (Seq<char>, DenialAccess) {
    (canonical_model(e.0.0), e.0.1)
}

/// The last entry under the key (`t`, `a`).
pub open spec fn latest(es: Seq<EntryModel>, t: Seq<char>, a: DenialAccess) -> Option<EntryModel>
    decreases es.len(),
{
    if es.len() == 0 {
        None
    } else if entry_key(es.last()) == (t, a) {
        Some(es.last())
    } else {
        latest(es.drop_last(), t, a)
    }
}

/// The entries still waiting for review.
pub open spec fn reviewable(es: Seq<EntryModel>) -> Seq<EntryModel>
    decreases es.len(),
{
    if es.len() == 0 {
        Seq::empty()
    } else if es.last().0.2 == CandidateTag::NeedsReview {
        reviewable(es.drop_last()).push(es.last())
    } else {
        reviewable(es.drop_last())
    }
}

/// What a pattern text holds after a sequence of entries: its read and write entries.
pub struct SlotModel {
    pub read: Option<EntryModel>,
    pub write: Option<EntryModel>,
}

pub open spec fn slot_of(es: Seq<EntryModel>, t: Seq<char>) -> Option<SlotModel> {
    if latest(es, t, DenialAccess::Read) is None && latest(es, t, DenialAccess::Write) is None {
        None
    } else {
        Some(SlotModel { read: latest(es, t, DenialAccess::Read), write: latest(es, t, DenialAccess::Write) })
    }
}

pub open spec fn opt_entries(o: Option<EntryModel>) -> Seq<EntryModel> {
    match o {
        Some(e) => seq![e],
        None => Seq::empty(),
    }
}

/// The slots in text order, each read entry before its write entry.
pub open spec fn flatten(m: Seq<(Seq<char>, SlotModel)>) -> Seq<EntryModel>
    decreases m.len(),
{
    if m.len() == 0 {
        Seq::empty()
    } else {
        flatten(m.drop_last()) + opt_entries(m.last().1.read) + opt_entries(m.last().1.write)
    }
}

/// The merged proposal: one entry per key that a reviewable earlier entry or an observed entry
/// holds, ordered by pattern text then access, each the newest (observed entries refresh earlier
/// ones). Earlier auto-accepted entries are not carried.
pub open spec fn merged_proposal(r: Seq<EntryModel>, prev: Seq<EntryModel>, obs: Seq<EntryModel>) -> bool {
    exists|m: Seq<(Seq<char>, SlotModel)>|
        #[trigger] flatten(m) == r && names_sorted(map_keys(m)) && forall|t: Seq<char>|
            #[trigger] map_get(m, t) == slot_of(reviewable(prev) + obs, t)
}

/// How many entries of `r` no observed entry refreshed.
pub open spec fn count_unobserved(r: Seq<EntryModel>, obs: Seq<EntryModel>) -> nat
    decreases r.len(),
{
    if r.len() == 0 {
        0
    } else {
        count_unobserved(r.drop_last(), obs) + if latest(obs, entry_key(r.last()).0, entry_key(r.last()).1) is None {
            1nat
        } else {
            0nat
        }
    }
}

struct Slot {
    read: Option<ProposalEntry>,
    write: Option<ProposalEntry>,
}

spec fn opt_entry_view(o: Option<ProposalEntry>) -> Option<EntryModel> {
    match o {
        Some(e) => Some(e@),
        None => None,
    }
}

impl View for Slot {
    type V = SlotModel;

    closed spec fn view(&self) -> SlotModel {
        SlotModel { read: opt_entry_view(self.read), write: opt_entry_view(self.write) }
    }
}

fn copy_opt_entry(o: &Option<ProposalEntry>) -> (r: Option<ProposalEntry>)
    ensures
        opt_entry_view(r) == opt_entry_view(*o),
{
    match o {
        Some(e) => Some(e.copy()),
        None => None,
    }
}

spec fn placed(s: Option<SlotModel>, e: EntryModel) -> SlotModel {
    let old_read = match s {
        Some(x) => x.read,
        None => None,
    };
    let old_write = match s {
        Some(x) => x.write,
        None => None,
    };
    if e.0.1 == DenialAccess::Read {
        SlotModel { read: Some(e), write: old_write }
    } else {
        SlotModel { read: old_read, write: Some(e) }
    }
}

fn upsert(table: &mut NameMap<Slot>, e: ProposalEntry)
    ensures
        forall|t: Seq<char>| #[trigger] map_get(final(table)@, t) == if t == entry_key(e@).0 {
            Some(placed(map_get(old(table)@, t), e@))
        } else {
            map_get(old(table)@, t)
        },
{
    let text = e.candidate.pattern.canonical();
    let ghost tv = text@;
    let current = table.get(text.as_str());
    let (old_read, old_write) = match current {
        Some(s) => (copy_opt_entry(&s.read), copy_opt_entry(&s.write)),
        None => (None, None),
    };
    let ghost ev = e@;
    let slot = match e.candidate.access {
        DenialAccess::Read => Slot { read: Some(e), write: old_write },
        DenialAccess::Write => Slot { read: old_read, write: Some(e) },
    };
    assert(slot@ == placed(map_get(table@, tv), ev));
    table.insert(text, slot);
}

proof fn lemma_slot_step(es: Seq<EntryModel>, e: EntryModel, t: Seq<char>)
    ensures
        slot_of(es.push(e), t) == if t == entry_key(e).0 {
            Some(placed(slot_of(es, t), e))
        } else {
            slot_of(es, t)
        },
{
    let s = es.push(e);
    assert(s.drop_last() =~= es);
    assert(s.last() == e);
}

fn entries_copy_push(out: &mut Vec<ProposalEntry>, o: &Option<ProposalEntry>)
    ensures
        entries_view(final(out)@) == entries_view(old(out)@) + opt_entries(opt_entry_view(*o)),
{
    let ghost before = entries_view(out@);
    match o {
        Some(e) => {
            out.push(e.copy());
        },
        None => {},
    }
    assert(entries_view(out@) =~= before + opt_entries(opt_entry_view(*o)));
}

fn observed_has(observed: &Vec<ProposalEntry>, text: &String, access: DenialAccess) -> (r: bool)
    ensures
        r == (latest(entries_view(observed@), text@, access) is Some),
{
    let ghost ov = entries_view(observed@);
    assert(ov.take(observed.len() as int) =~= ov);
    let mut i: usize = observed.len();
    while i > 0
        invariant
            ov == entries_view(observed@),
            i <= observed.len(),
            latest(ov, text@, access) == latest(ov.take(i as int), text@, access),
        decreases i,
    {
        assert(ov.take(i as int).drop_last() =~= ov.take(i - 1));
        assert(ov.take(i as int).last() == ov[i - 1]);
        let k = observed[i - 1].candidate.pattern.canonical();
        if observed[i - 1].candidate.access == access && crate::names::str_equal(k.as_str(), text.as_str()) {
            return true;
        }
        i = i - 1;
    }
    false
}

/// Sticky merge: unreviewed entries from earlier runs are kept, a re-observed (pattern, access)
/// is refreshed with the newest run's entry, earlier auto-accepted entries are not carried. Also
/// says how many entries were carried forward without being re-observed.
pub fn merge_proposal_entries(previous: Vec<ProposalEntry>, observed: Vec<ProposalEntry>) -> (r: (Vec<ProposalEntry>, usize))
    ensures
        merged_proposal(entries_view(r.0@), entries_view(previous@), entries_view(observed@)),
        r.1 == count_unobserved(entries_view(r.0@), entries_view(observed@)),
{
    let ghost pv = entries_view(previous@);
    let ghost obv = entries_view(observed@);
    let mut table: NameMap<Slot> = NameMap::new();
    let mut i: usize = 0;
    while i < previous.len()
        invariant
            pv == entries_view(previous@),
            i <= previous.len(),
            forall|t: Seq<char>| #[trigger] map_get(table@, t) == slot_of(reviewable(pv.take(i as int)), t),
        decreases previous.len() - i,
    {
        let ghost before = reviewable(pv.take(i as int));
        assert(pv.take(i + 1).drop_last() =~= pv.take(i as int));
        assert(pv.take(i + 1).last() == pv[i as int]);
        if previous[i].candidate.tag == CandidateTag::NeedsReview {
            let e = previous[i].copy();
            let ghost ev = e@;
            upsert(&mut table, e);
            assert forall|t: Seq<char>| #[trigger] map_get(table@, t) == slot_of(reviewable(pv.take(i + 1)), t) by {
                lemma_slot_step(before, ev, t);
            }
        }
        i = i + 1;
    }
    assert(pv.take(previous.len() as int) =~= pv);
    let ghost base = reviewable(pv);
    let mut j: usize = 0;
    assert(base + obv.take(0) =~= base);
    while j < observed.len()
        invariant
            obv == entries_view(observed@),
            j <= observed.len(),
            forall|t: Seq<char>| #[trigger] map_get(table@, t) == slot_of(base + obv.take(j as int), t),
        decreases observed.len() - j,
    {
        let ghost before = base + obv.take(j as int);
        assert(base + obv.take(j + 1) =~= before.push(obv[j as int]));
        let e = observed[j].copy();
        let ghost ev = e@;
        upsert(&mut table, e);
        assert forall|t: Seq<char>| #[trigger] map_get(table@, t) == slot_of(base + obv.take(j + 1), t) by {
            lemma_slot_step(before, ev, t);
        }
        j = j + 1;
    }
    assert(obv.take(observed.len() as int) =~= obv);
    let n = table.len();
    let ghost m = table@;
    let mut out: Vec<ProposalEntry> = Vec::new();
    let mut k: usize = 0;
    while k < n
        invariant
            n == m.len(),
            m == table@,
            k <= n,
            entries_view(out@) == flatten(m.take(k as int)),
        decreases n - k,
    {
        assert(m.take(k + 1).drop_last() =~= m.take(k as int));
        assert(m.take(k + 1).last() == m[k as int]);
        let slot = table.value(k);
        assert(opt_entry_view(slot.read) == m[k as int].1.read);
        assert(opt_entry_view(slot.write) == m[k as int].1.write);
        entries_copy_push(&mut out, &slot.read);
        entries_copy_push(&mut out, &slot.write);
        k = k + 1;
    }
    assert(m.take(n as int) =~= m);
    assert(names_sorted(map_keys(m)));
    assert(flatten(m) == entries_view(out@) && names_sorted(map_keys(m)) && forall|t: Seq<char>|
        #[trigger] map_get(m, t) == slot_of(reviewable(pv) + obv, t));
    let ghost rv = entries_view(out@);
    let mut carried: usize = 0;
    let mut c: usize = 0;
    while c < out.len()
        invariant
            rv == entries_view(out@),
            obv == entries_view(observed@),
            c <= out.len(),
            carried == count_unobserved(rv.take(c as int), obv),
            carried <= c,
        decreases out.len() - c,
    {
        assert(rv.take(c + 1).drop_last() =~= rv.take(c as int));
        assert(rv.take(c + 1).last() == rv[c as int]);
        let text = out[c].candidate.pattern.canonical();
        if !observed_has(&observed, &text, out[c].candidate.access) {
            carried = carried + 1;
        }
        c = c + 1;
    }
    assert(rv.take(out.len() as int) =~= rv);
    (out, carried)
}

// ---------------------------------------------------------------------------------------------
// A learning run's conclusion

/// The proposal entries for a run's candidates, each stamped with the run.
pub fn stamped_entries(candidates: &Vec<Candidate>, run_id: &str, only_auto: bool) -> (r: Vec<ProposalEntry>)
    ensures
        entries_view(r@) == stamp(crate::discovery::cands_view(candidates@), run_id@, only_auto),
{
    let ghost cv = crate::discovery::cands_view(candidates@);
    let mut out: Vec<ProposalEntry> = Vec::new();
    let mut i: usize = 0;
    while i < candidates.len()
        invariant
            cv == crate::discovery::cands_view(candidates@),
            i <= candidates.len(),
            entries_view(out@) == stamp(cv.take(i as int), run_id@, only_auto),
        decreases candidates.len() - i,
    {
        assert(cv.take(i + 1).drop_last() =~= cv.take(i as int));
        let ghost before = entries_view(out@);
        if !only_auto || candidates[i].tag == CandidateTag::AutoAccepted {
            let e = ProposalEntry {
                candidate: Candidate {
                    pattern: candidates[i].pattern.copy(),
                    access: candidates[i].access,
                    tag: candidates[i].tag,
                },
                run_id: String::from_str(run_id),
            };
            out.push(e);
            assert(entries_view(out@) =~= before.push((cv[i as int], run_id@)));
        }
        i = i + 1;
    }
    assert(cv.take(candidates.len() as int) =~= cv);
    out
}

/// Candidates stamped with a run id; with `only_auto`, just the auto-accepted ones.
pub open spec fn stamp(cs: Seq<CandidateModel>, run: Seq<char>, only_auto: bool) -> Seq<EntryModel>
    decreases cs.len(),
{
    if cs.len() == 0 {
        Seq::empty()
    } else {
        let prev = stamp(cs.drop_last(), run, only_auto);
        if !only_auto || cs.last().2 == CandidateTag::AutoAccepted {
            prev.push((cs.last(), run))
        } else {
            prev
        }
    }
}

/// How many entries still need review.
pub open spec fn review_count(es: Seq<EntryModel>) -> nat
    decreases es.len(),
{
    if es.len() == 0 {
        0
    } else {
        review_count(es.drop_last()) + if es.last().0.2 == CandidateTag::NeedsReview {
            1nat
        } else {
            0nat
        }
    }
}

pub fn needs_review_count(entries: &Vec<ProposalEntry>) -> (r: usize)
    ensures
        r == review_count(entries_view(entries@)),
{
    let ghost ev = entries_view(entries@);
    let mut n: usize = 0;
    let mut i: usize = 0;
    while i < entries.len()
        invariant
            ev == entries_view(entries@),
            i <= entries.len(),
            n == review_count(ev.take(i as int)),
            n <= i,
        decreases entries.len() - i,
    {
        assert(ev.take(i + 1).drop_last() =~= ev.take(i as int));
        if entries[i].candidate.tag == CandidateTag::NeedsReview {
            n = n + 1;
        }
        i = i + 1;
    }
    assert(ev.take(entries.len() as int) =~= ev);
    n
}

/// What a learning run concluded: the in-zone entries to self-grant for the next run and the
/// merged proposal (with how many unreviewed entries were carried).
#[derive(Debug)]
pub struct LearningConclusion {
    pub auto_accepted: Vec<ProposalEntry>,
    pub proposal: ProposalFile,
    pub carried: usize,
}

/// The decisions of a learning run's conclusion, given the reverse-compiled outcome and the
/// proposal's earlier entries.
pub fn conclude_learning_run(outcome: &ProposalOutcome, previous: Vec<ProposalEntry>, blueprint: &str, run_id: &str) -> (r: LearningConclusion)
    ensures
        entries_view(r.auto_accepted@) == stamp(crate::discovery::cands_view(outcome.candidates@), run_id@, true),
        r.proposal.blueprint@ == blueprint@,
        merged_proposal(
            entries_view(r.proposal.candidates@),
            entries_view(previous@),
            stamp(crate::discovery::cands_view(outcome.candidates@), run_id@, false),
        ),
        r.carried == count_unobserved(
            entries_view(r.proposal.candidates@),
            stamp(crate::discovery::cands_view(outcome.candidates@), run_id@, false),
        ),
{
    let auto_accepted = stamped_entries(&outcome.candidates, run_id, true);
    let observed = stamped_entries(&outcome.candidates, run_id, false);
    let (candidates, carried) = merge_proposal_entries(previous, observed);
    LearningConclusion {
        auto_accepted,
        proposal: ProposalFile { blueprint: String::from_str(blueprint), candidates },
        carried,
    }
}

/// The line a learning run prints: where the proposal is and how much of it needs review.
pub open spec fn proposal_summary_text(path: Seq<char>, total: nat, review: nat) -> Seq<char> {
    "proposal: "@ + path + " ("@ + decimal(total) + " candidates, "@ + decimal(review)
        + " needs review) -- review with `formwork learn --list`"@
}

pub fn proposal_summary(path: &str, proposal: &ProposalFile) -> (r: String)
    ensures
        r@ == proposal_summary_text(
            path@,
            proposal.candidates@.len(),
            review_count(entries_view(proposal.candidates@)),
        ),
{
    let mut out = String::new();
    push_str(&mut out, "proposal: ");
    push_str(&mut out, path);
    push_str(&mut out, " (");
    push_decimal(&mut out, proposal.candidates.len() as u64);
    push_str(&mut out, " candidates, ");
    let n = needs_review_count(&proposal.candidates);
    push_decimal(&mut out, n as u64);
    push_str(&mut out, " needs review) -- review with `formwork learn --list`");
    out
}

// ---------------------------------------------------------------------------------------------
// The discovered layer

pub open spec fn access_patterns(es: Seq<EntryModel>, a: DenialAccess) -> Seq<PatternModel>
    decreases es.len(),
{
    if es.len() == 0 {
        Seq::empty()
    } else if es.last().0.1 == a {
        access_patterns(es.drop_last(), a).push(es.last().0.0)
    } else {
        access_patterns(es.drop_last(), a)
    }
}

/// The provenance recorded under a canonical pattern text after accepting `es` via `via`: the
/// last accepted entry with that text, else what was there.
pub open spec fn provenance_after(old: Seq<(Seq<char>, (Seq<char>, Seq<char>))>, es: Seq<EntryModel>, via: Seq<char>, k: Seq<char>) -> Option<(Seq<char>, Seq<char>)>
    decreases es.len(),
{
    if es.len() == 0 {
        map_get(old, k)
    } else if canonical_model(es.last().0.0) == k {
        Some((via, es.last().1))
    } else {
        provenance_after(old, es.drop_last(), via, k)
    }
}

/// Appends accepted entries to the discovered layer: each pattern joins the reads or writes by
/// its access, carries provenance under its canonical text, and both grant sets end canonical.
/// Returns how many entries were recorded.
pub fn record_discovered(layer: &mut BlueprintLayer, accepted: &Vec<ProposalEntry>, added_via: &str) -> (r: usize)
    ensures
        r == accepted@.len(),
        canonical_set_of(final(layer)@.reads, old(layer)@.reads + access_patterns(entries_view(accepted@), DenialAccess::Read)),
        canonical_set_of(final(layer)@.writes, old(layer)@.writes + access_patterns(entries_view(accepted@), DenialAccess::Write)),
        forall|k: Seq<char>| #[trigger] map_get(final(layer).discovery.provenance@, k)
            == provenance_after(old(layer).discovery.provenance@, entries_view(accepted@), added_via@, k),
        final(layer)@.read_mode == old(layer)@.read_mode,
        final(layer)@.writes_no_create == old(layer)@.writes_no_create,
        final(layer)@.subtract == old(layer)@.subtract,
        final(layer)@.write_subtract == old(layer)@.write_subtract,
        final(layer)@.net == old(layer)@.net,
        final(layer)@.exec_posture == old(layer)@.exec_posture,
        final(layer)@.env == old(layer)@.env,
        final(layer)@.mcp == old(layer)@.mcp,
        final(layer)@.allow_credentials == old(layer)@.allow_credentials,
        final(layer)@.auto_widen == old(layer)@.auto_widen,
        final(layer).extends@ == old(layer).extends@,
        final(layer).mode == old(layer).mode,
        strs_view(final(layer).rules@) == strs_view(old(layer).rules@),
{
    let ghost av = entries_view(accepted@);
    let ghost reads0 = pats_view(layer.fs.reads@);
    let ghost writes0 = pats_view(layer.fs.writes@);
    let ghost prov0 = layer.discovery.provenance@;
    let mut i: usize = 0;
    while i < accepted.len()
        invariant
            av == entries_view(accepted@),
            i <= accepted.len(),
            pats_view(layer.fs.reads@) == reads0 + access_patterns(av.take(i as int), DenialAccess::Read),
            pats_view(layer.fs.writes@) == writes0 + access_patterns(av.take(i as int), DenialAccess::Write),
            forall|k: Seq<char>| #[trigger] map_get(layer.discovery.provenance@, k) == provenance_after(prov0, av.take(i as int), added_via@, k),
            layer.fs.read_mode == old(layer).fs.read_mode,
            layer.fs.writes_no_create@ == old(layer).fs.writes_no_create@,
            layer.fs.subtract@ == old(layer).fs.subtract@,
            layer.fs.write_subtract@ == old(layer).fs.write_subtract@,
            layer.net == old(layer).net,
            layer.exec_posture == old(layer).exec_posture,
            layer.env == old(layer).env,
            layer.mcp@ == old(layer).mcp@,
            layer.allow_credentials@ == old(layer).allow_credentials@,
            layer.discovery.auto_widen@ == old(layer).discovery.auto_widen@,
            layer.extends@ == old(layer).extends@,
            layer.mode == old(layer).mode,
            layer.rules@ == old(layer).rules@,
            reads0 == pats_view(old(layer).fs.reads@),
            writes0 == pats_view(old(layer).fs.writes@),
            prov0 == old(layer).discovery.provenance@,
        decreases accepted.len() - i,
    {
        assert(av.take(i + 1).drop_last() =~= av.take(i as int));
        assert(av.take(i + 1).last() == av[i as int]);
        let e = &accepted[i];
        let ghost rb = pats_view(layer.fs.reads@);
        let ghost wb = pats_view(layer.fs.writes@);
        match e.candidate.access {
            DenialAccess::Read => {
                layer.fs.reads.push(e.candidate.pattern.copy());
                assert(pats_view(layer.fs.reads@) =~= rb.push(e.candidate.pattern@));
            },
            DenialAccess::Write => {
                layer.fs.writes.push(e.candidate.pattern.copy());
                assert(pats_view(layer.fs.writes@) =~= wb.push(e.candidate.pattern@));
            },
        }
        let key = e.candidate.pattern.canonical();
        let entry = ProvenanceEntry { added_via: String::from_str(added_via), run_id: copy_string(&e.run_id) };
        layer.discovery.provenance.insert(key, entry);
        i = i + 1;
    }
    assert(av.take(accepted.len() as int) =~= av);
    let reads = canonicalize_set(layer.fs.reads.as_slice());
    let writes = canonicalize_set(layer.fs.writes.as_slice());
    layer.fs.reads = reads;
    layer.fs.writes = writes;
    accepted.len()
}

// ---------------------------------------------------------------------------------------------
// Acceptance

/// The leading digits of a decimal numeral, as a number.
pub open spec fn digits_value(s: Seq<char>) -> nat
    decreases s.len(),
{
    if s.len() == 0 {
        0
    } else {
        digits_value(s.drop_last()) * 10 + ((s.last() as nat) - ('0' as nat)) as nat
    }
}

pub open spec fn all_digits(s: Seq<char>) -> bool {
    forall|i: int| 0 <= i < s.len() ==> '0' <= #[trigger] s[i] <= '9'
}

/// A numeral's digits: the text after an optional leading `+`.
pub open spec fn numeral_digits(s: Seq<char>) -> Seq<char> {
    if s.len() > 0 && s[0] == '+' {
        s.skip(1)
    } else {
        s
    }
}

/// `usize`'s `FromStr`: an optional `+`, then one or more decimal digits, in range.
pub open spec fn usize_of(s: Seq<char>) -> Option<usize> {
    let d = numeral_digits(s);
    if d.len() > 0 && all_digits(d) && digits_value(d) <= usize::MAX {
        Some(digits_value(d) as usize)
    } else {
        None
    }
}

pub proof fn lemma_digits_prefix_bound(s: Seq<char>, i: int)
    requires
        all_digits(s),
        0 <= i <= s.len(),
    ensures
        digits_value(s.take(i)) <= digits_value(s),
    decreases s.len() - i,
{
    if i < s.len() {
        lemma_digits_prefix_bound(s, i + 1);
        assert(s.take(i + 1).drop_last() =~= s.take(i));
        assert(digits_value(s.take(i + 1)) == digits_value(s.take(i)) * 10 + ((s[i] as nat) - ('0' as nat)) as nat);
    } else {
        assert(s.take(i) =~= s);
    }
}

pub fn parse_usize(s: &str) -> (r: Option<usize>)
    ensures
        r == usize_of(s@),
{
    let v = chars_of(s);
    let start: usize = if v.len() > 0 && v[0] == '+' { 1 } else { 0 };
    let ghost d = numeral_digits(s@);
    assert(v@.skip(start as int) =~= d);
    if start >= v.len() {
        assert(d.len() == 0);
        return None;
    }
    let mut acc: usize = 0;
    let mut i: usize = start;
    while i < v.len()
        invariant
            v@ == s@,
            start <= i <= v.len(),
            d == v@.skip(start as int),
            d == numeral_digits(s@),
            all_digits(d.take(i - start)),
            acc == digits_value(d.take(i - start)),
        decreases v.len() - i,
    {
        let c = v[i];
        let ghost k = i - start;
        assert(d[k] == c);
        if c < '0' || c > '9' {
            assert(!all_digits(d));
            assert(usize_of(s@) is None);
            return None;
        }
        assert(d.take(k + 1).drop_last() =~= d.take(k));
        let digit: usize = (c as u32 - '0' as u32) as usize;
        match acc.checked_mul(10) {
            None => {
                proof {
                    assert(all_digits(d.take(k + 1)));
                    if all_digits(d) {
                        lemma_digits_prefix_bound(d, k + 1);
                    }
                }
                return None;
            },
            Some(m) => match m.checked_add(digit) {
                None => {
                    proof {
                        assert(all_digits(d.take(k + 1)));
                        if all_digits(d) {
                            lemma_digits_prefix_bound(d, k + 1);
                        }
                    }
                    return None;
                },
                Some(n) => {
                    acc = n;
                },
            },
        }
        i = i + 1;
    }
    assert(d.take(v.len() - start) =~= d);
    Some(acc)
}

/// Is the `i`-th entry (0-based) named by the selection: by its 1-based number or its exact
/// canonical pattern?
pub open spec fn named_by(i: int, e: EntryModel, sels: Seq<Seq<char>>) -> bool {
    exists|k: int|
        0 <= k < sels.len() && ((#[trigger] usize_of(sels[k]) matches Some(n) && n == i + 1) || sels[k] == canonical_model(e.0.0))
}

/// The needs-review entries the selection names, in proposal order.
pub open spec fn selection(es: Seq<EntryModel>, sels: Seq<Seq<char>>, all: bool) -> Seq<EntryModel>
    decreases es.len(),
{
    if es.len() == 0 {
        Seq::empty()
    } else {
        let prev = selection(es.drop_last(), sels, all);
        let i = es.len() - 1;
        if es.last().0.2 == CandidateTag::NeedsReview && (all || named_by(i, es.last(), sels)) {
            prev.push(es.last())
        } else {
            prev
        }
    }
}

/// The first selected entry the credential floor catches (no exclusions apply): its canonical
/// text and type.
pub open spec fn first_floored(sel: Seq<EntryModel>, c: crate::catalog::ResolvedCatalogModel) -> Option<(Seq<char>, Seq<char>)>
    decreases sel.len(),
{
    if sel.len() == 0 {
        None
    } else {
        match floor_type_model(c, Seq::empty(), sel[0].0.0) {
            Some(t) => Some((canonical_model(sel[0].0.0), t)),
            None => first_floored(sel.drop_first(), c),
        }
    }
}

pub open spec fn key_accepted(sel: Seq<EntryModel>, e: EntryModel) -> bool {
    exists|j: int| 0 <= j < sel.len() && entry_key(#[trigger] sel[j]) == entry_key(e)
}

/// The proposal's entries that acceptance did not consume (keyed by pattern and access, so a
/// same-pattern read and write stay distinct).
pub open spec fn remaining_after(es: Seq<EntryModel>, sel: Seq<EntryModel>) -> Seq<EntryModel>
    decreases es.len(),
{
    if es.len() == 0 {
        Seq::empty()
    } else if key_accepted(sel, es.last()) {
        remaining_after(es.drop_last(), sel)
    } else {
        remaining_after(es.drop_last(), sel).push(es.last())
    }
}

pub open spec fn no_match_text() -> Seq<char> {
    "no needs-review candidate matched the selection (run with no selection to list)"@
}

pub open spec fn floor_refusal_text(canonical: Seq<char>, t: Seq<char>) -> Seq<char> {
    "refusing to accept "@ + canonical + ": it matches the credential floor (type: "@ + t
        + "); the only lift is the explicit typed exclude, --allow-cred"@
}

/// An acceptance: the entries to record and the proposal that remains.
#[derive(Debug)]
pub struct AcceptPlan {
    pub selected: Vec<ProposalEntry>,
    pub remaining: ProposalFile,
}

fn named_by_exec(i: usize, e: &ProposalEntry, sels: &Vec<String>) -> (r: bool)
    requires
        i < usize::MAX,
    ensures
        r == named_by(i as int, e@, strs_view(sels@)),
{
    let ghost sv = strs_view(sels@);
    let canonical = e.candidate.pattern.canonical();
    let mut k: usize = 0;
    while k < sels.len()
        invariant
            sv == strs_view(sels@),
            i < usize::MAX,
            k <= sels.len(),
            canonical@ == canonical_model(e@.0.0),
            forall|j: int| 0 <= j < k ==> !((#[trigger] usize_of(sv[j]) matches Some(n) && n == i + 1) || sv[j] == canonical_model(e@.0.0)),
        decreases sels.len() - k,
    {
        let by_number = match parse_usize(sels[k].as_str()) {
            Some(n) => n == i + 1,
            None => false,
        };
        if by_number || crate::names::str_equal(sels[k].as_str(), canonical.as_str()) {
            assert(usize_of(sv[k as int]) matches Some(n) && n == i + 1 || sv[k as int] == canonical_model(e@.0.0));
            return true;
        }
        k = k + 1;
    }
    false
}

fn accepted_has(sel: &Vec<ProposalEntry>, e: &ProposalEntry) -> (r: bool)
    ensures
        r == key_accepted(entries_view(sel@), e@),
{
    let ghost sv = entries_view(sel@);
    let text = e.candidate.pattern.canonical();
    let mut j: usize = 0;
    while j < sel.len()
        invariant
            sv == entries_view(sel@),
            j <= sel.len(),
            text@ == canonical_model(e@.0.0),
            forall|m: int| 0 <= m < j ==> entry_key(#[trigger] sv[m]) != entry_key(e@),
        decreases sel.len() - j,
    {
        let t = sel[j].candidate.pattern.canonical();
        if sel[j].candidate.access == e.candidate.access && crate::names::str_equal(t.as_str(), text.as_str()) {
            assert(entry_key(sv[j as int]) == entry_key(e@));
            return true;
        }
        j = j + 1;
    }
    false
}

/// Plans an acceptance (the caller lists the proposal instead when nothing is selected): the
/// needs-review entries the selection names, unless none is named or one of them lies on the
/// credential floor; and the proposal without the accepted keys.
pub fn plan_acceptance(proposal: &ProposalFile, entries: &Vec<String>, all: bool, catalog: &ResolvedCatalog) -> (r: Result<AcceptPlan, String>)
    ensures
        ({
            let es = entries_view(proposal.candidates@);
            let sel = selection(es, strs_view(entries@), all);
            match r {
                Err(msg) => if sel.len() == 0 {
                    msg@ == no_match_text()
                } else {
                    first_floored(sel, catalog@) matches Some(f) && msg@ == floor_refusal_text(f.0, f.1)
                },
                Ok(plan) => {
                    &&& sel.len() > 0
                    &&& first_floored(sel, catalog@) is None
                    &&& entries_view(plan.selected@) == sel
                    &&& plan.remaining.blueprint@ == proposal.blueprint@
                    &&& entries_view(plan.remaining.candidates@) == remaining_after(es, sel)
                },
            }
        }),
{
    let ghost es = entries_view(proposal.candidates@);
    let ghost sv = strs_view(entries@);
    let mut selected: Vec<ProposalEntry> = Vec::new();
    let mut i: usize = 0;
    while i < proposal.candidates.len()
        invariant
            es == entries_view(proposal.candidates@),
            sv == strs_view(entries@),
            i <= proposal.candidates.len(),
            entries_view(selected@) == selection(es.take(i as int), sv, all),
        decreases proposal.candidates.len() - i,
    {
        assert(es.take(i + 1).drop_last() =~= es.take(i as int));
        assert(es.take(i + 1).last() == es[i as int]);
        let e = &proposal.candidates[i];
        let ghost before = entries_view(selected@);
        if e.candidate.tag == CandidateTag::NeedsReview && (all || named_by_exec(i, e, entries)) {
            selected.push(e.copy());
            assert(entries_view(selected@) =~= before.push(e@));
        }
        i = i + 1;
    }
    assert(es.take(proposal.candidates.len() as int) =~= es);
    let ghost sel = entries_view(selected@);
    if selected.len() == 0 {
        return Err(String::from_str("no needs-review candidate matched the selection (run with no selection to list)"));
    }
    let no_allow: Vec<String> = Vec::new();
    assert(strs_view(no_allow@) =~= Seq::<Seq<char>>::empty());
    let mut j: usize = 0;
    assert(sel.skip(0) =~= sel);
    while j < selected.len()
        invariant
            sel == entries_view(selected@),
            sel == selection(es, sv, all),
            es == entries_view(proposal.candidates@),
            sv == strs_view(entries@),
            sel.len() > 0,
            strs_view(no_allow@) == Seq::<Seq<char>>::empty(),
            j <= selected.len(),
            first_floored(sel, catalog@) == first_floored(sel.skip(j as int), catalog@),
        decreases selected.len() - j,
    {
        assert(sel.skip(j as int)[0] == sel[j as int]);
        assert(sel.skip(j as int).drop_first() =~= sel.skip(j + 1));
        match catalog.floor_type_of(&no_allow, &selected[j].candidate.pattern) {
            Some(t) => {
                let mut msg = String::new();
                push_str(&mut msg, "refusing to accept ");
                let c = selected[j].candidate.pattern.canonical();
                assert(first_floored(sel.skip(j as int), catalog@) == Some((c@, t@)));
                push_str(&mut msg, c.as_str());
                push_str(&mut msg, ": it matches the credential floor (type: ");
                push_str(&mut msg, t.as_str());
                push_str(&mut msg, "); the only lift is the explicit typed exclude, --allow-cred");
                assert(msg@ =~= floor_refusal_text(c@, t@));
                return Err(msg);
            },
            None => {},
        }
        j = j + 1;
    }
    let mut remaining: Vec<ProposalEntry> = Vec::new();
    let mut k: usize = 0;
    while k < proposal.candidates.len()
        invariant
            es == entries_view(proposal.candidates@),
            sel == entries_view(selected@),
            sel == selection(es, sv, all),
            sv == strs_view(entries@),
            sel.len() > 0,
            first_floored(sel, catalog@) is None,
            k <= proposal.candidates.len(),
            entries_view(remaining@) == remaining_after(es.take(k as int), sel),
        decreases proposal.candidates.len() - k,
    {
        assert(es.take(k + 1).drop_last() =~= es.take(k as int));
        assert(es.take(k + 1).last() == es[k as int]);
        let ghost before = entries_view(remaining@);
        if !accepted_has(&selected, &proposal.candidates[k]) {
            remaining.push(proposal.candidates[k].copy());
            assert(entries_view(remaining@) =~= before.push(es[k as int]));
        }
        k = k + 1;
    }
    assert(es.take(proposal.candidates.len() as int) =~= es);
    Ok(AcceptPlan {
        selected,
        remaining: ProposalFile { blueprint: copy_string(&proposal.blueprint), candidates: remaining },
    })
}

pub open spec fn accepted_text(count: nat, discovered: Seq<char>) -> Seq<char> {
    "accepted "@ + decimal(count) + " grant"@ + (if count == 1 { ""@ } else { "s"@ }) + " into "@ + discovered
        + "; they apply from the next run"@
}

/// The line an acceptance prints.
pub fn accepted_message(count: usize, discovered: &str) -> (r: String)
    ensures
        r@ == accepted_text(count as nat, discovered@),
{
    let mut out = String::new();
    push_str(&mut out, "accepted ");
    push_decimal(&mut out, count as u64);
    push_str(&mut out, " grant");
    if count == 1 {
        push_str(&mut out, "");
    } else {
        push_str(&mut out, "s");
    }
    push_str(&mut out, " into ");
    push_str(&mut out, discovered);
    push_str(&mut out, "; they apply from the next run");
    out
}

// ---------------------------------------------------------------------------------------------
// Listing

/// `n` right-aligned in a field of three.
pub open spec fn padded3(n: nat) -> Seq<char> {
    let d = decimal(n);
    if d.len() >= 3 {
        d
    } else {
        Seq::new((3 - d.len()) as nat, |i: int| ' ') + d
    }
}

pub open spec fn access_word(a: DenialAccess) -> Seq<char> {
    match a {
        DenialAccess::Read => "read"@,
        DenialAccess::Write => "write"@,
    }
}

pub open spec fn tag_word(t: CandidateTag) -> Seq<char> {
    match t {
        CandidateTag::NeedsReview => "needs-review"@,
        CandidateTag::AutoAccepted => "auto-accepted"@,
    }
}

pub open spec fn listing_line(i: nat, e: EntryModel) -> Seq<char> {
    padded3(i + 1) + ". "@ + canonical_model(e.0.0) + " ("@ + access_word(e.0.1) + ", "@ + tag_word(e.0.2)
        + ", observed by "@ + e.1 + ")\n"@
}

pub open spec fn listing_lines(es: Seq<EntryModel>) -> Seq<char>
    decreases es.len(),
{
    if es.len() == 0 {
        Seq::empty()
    } else {
        listing_lines(es.drop_last()) + listing_line((es.len() - 1) as nat, es.last())
    }
}

pub open spec fn listing_footer() -> Seq<char> {
    "select with `formwork learn --accept <number|pattern>` (repeatable) or --accept-all; auto-accepted entries are already in the discovered layer and are listed for audit only\n"@
}

pub open spec fn listing_text(es: Seq<EntryModel>) -> Seq<char> {
    if es.len() == 0 {
        "proposal has no candidates; nothing to review\n"@
    } else {
        listing_lines(es) + listing_footer()
    }
}

fn push_padded3(out: &mut String, n: u64)
    ensures
        final(out)@ == old(out)@ + padded3(n as nat),
{
    let ghost start = out@;
    let mut digits = String::new();
    push_decimal(&mut digits, n);
    let d = chars_of(digits.as_str());
    let ghost dv = decimal(n as nat);
    if d.len() < 3 {
        let pad: usize = 3 - d.len();
        let mut k: usize = 0;
        while k < pad
            invariant
                k <= pad,
                out@ == start + Seq::new(k as nat, |i: int| ' '),
            decreases pad - k,
        {
            push_char(out, ' ');
            k = k + 1;
            assert(out@ =~= start + Seq::new(k as nat, |i: int| ' '));
        }
    }
    crate::text::push_all(out, d.as_slice());
    assert(out@ =~= start + padded3(n as nat));
}

fn push_listing_line(out: &mut String, i: usize, e: &ProposalEntry)
    requires
        i < usize::MAX,
    ensures
        final(out)@ == old(out)@ + listing_line(i as nat, e@),
{
    let ghost start = out@;
    push_padded3(out, (i as u64) + 1);
    push_str(out, ". ");
    let c = e.candidate.pattern.canonical();
    push_str(out, c.as_str());
    push_str(out, " (");
    match e.candidate.access {
        DenialAccess::Read => push_str(out, "read"),
        DenialAccess::Write => push_str(out, "write"),
    }
    push_str(out, ", ");
    match e.candidate.tag {
        CandidateTag::NeedsReview => push_str(out, "needs-review"),
        CandidateTag::AutoAccepted => push_str(out, "auto-accepted"),
    }
    push_str(out, ", observed by ");
    push_str(out, e.run_id.as_str());
    push_str(out, ")\n");
    assert(out@ =~= start + listing_line(i as nat, e@));
}

/// What listing a proposal prints: each entry numbered from one with its pattern, access, tag and
/// run, then how to select.
pub fn proposal_listing(proposal: &ProposalFile) -> (r: String)
    ensures
        r@ == listing_text(entries_view(proposal.candidates@)),
{
    let ghost es = entries_view(proposal.candidates@);
    let mut out = String::new();
    if proposal.candidates.len() == 0 {
        push_str(&mut out, "proposal has no candidates; nothing to review\n");
        return out;
    }
    let mut i: usize = 0;
    while i < proposal.candidates.len()
        invariant
            es == entries_view(proposal.candidates@),
            i <= proposal.candidates.len(),
            out@ == listing_lines(es.take(i as int)),
        decreases proposal.candidates.len() - i,
    {
        assert(es.take(i + 1).drop_last() =~= es.take(i as int));
        assert(es.take(i + 1).last() == es[i as int]);
        let ghost before = out@;
        push_listing_line(&mut out, i, &proposal.candidates[i]);
        assert(out@ =~= before + listing_line(i as nat, es[i as int]));
        i = i + 1;
    }
    assert(es.take(proposal.candidates.len() as int) =~= es);
    push_str(&mut out, "select with `formwork learn --accept <number|pattern>` (repeatable) or --accept-all; auto-accepted entries are already in the discovered layer and are listed for audit only\n");
    out
}

// ---------------------------------------------------------------------------------------------
// Laws

/// A newer entry refreshes an older one under the same (pattern, access) key; a key no run
/// re-observed keeps its earlier reviewable entry.
pub proof fn merge_refreshes_or_carries(prev: Seq<EntryModel>, obs: Seq<EntryModel>, t: Seq<char>, a: DenialAccess)
    ensures
        latest(reviewable(prev) + obs, t, a) == match latest(obs, t, a) {
            Some(e) => Some(e),
            None => latest(reviewable(prev), t, a),
        },
    decreases obs.len(),
{
    let x = reviewable(prev);
    if obs.len() == 0 {
        assert(x + obs =~= x);
    } else {
        assert((x + obs).drop_last() =~= x + obs.drop_last());
        assert((x + obs).last() == obs.last());
        merge_refreshes_or_carries(prev, obs.drop_last(), t, a);
    }
}

/// Earlier auto-accepted entries are not carried: whatever an earlier proposal contributes still
/// needs review.
pub proof fn carried_entries_need_review(prev: Seq<EntryModel>, t: Seq<char>, a: DenialAccess)
    ensures
        latest(reviewable(prev), t, a) matches Some(e) ==> e.0.2 == CandidateTag::NeedsReview,
    decreases prev.len(),
{
    if prev.len() > 0 {
        carried_entries_need_review(prev.drop_last(), t, a);
        let r = reviewable(prev.drop_last());
        if prev.last().0.2 == CandidateTag::NeedsReview {
            assert(reviewable(prev) == r.push(prev.last()));
            assert(r.push(prev.last()).drop_last() =~= r);
        }
    }
}

/// Acceptance holds the credential floor with no exclusions: when it goes through, no accepted
/// entry lies on the floor.
pub proof fn accepted_entries_are_off_the_floor(sel: Seq<EntryModel>, c: crate::catalog::ResolvedCatalogModel)
    requires
        first_floored(sel, c) is None,
    ensures
        forall|j: int| 0 <= j < sel.len() ==> floor_type_model(c, Seq::empty(), (#[trigger] sel[j]).0.0) is None,
    decreases sel.len(),
{
    if sel.len() > 0 {
        accepted_entries_are_off_the_floor(sel.drop_first(), c);
        assert forall|j: int| 0 <= j < sel.len() implies floor_type_model(c, Seq::empty(), (#[trigger] sel[j]).0.0) is None by {
            if j > 0 {
                assert(sel[j] == sel.drop_first()[j - 1]);
            }
        }
    }
}

/// Acceptance is visibly consumed: no entry that remains in the proposal has an accepted key.
pub proof fn accepted_keys_leave_the_proposal(es: Seq<EntryModel>, sel: Seq<EntryModel>)
    ensures
        forall|j: int| 0 <= j < remaining_after(es, sel).len() ==> !key_accepted(sel, #[trigger] remaining_after(es, sel)[j]),
    decreases es.len(),
{
    if es.len() > 0 {
        accepted_keys_leave_the_proposal(es.drop_last(), sel);
        let r = remaining_after(es.drop_last(), sel);
        if !key_accepted(sel, es.last()) {
            assert forall|j: int| 0 <= j < remaining_after(es, sel).len() implies !key_accepted(sel, #[trigger] remaining_after(es, sel)[j]) by {
                if j < r.len() {
                    assert(remaining_after(es, sel)[j] == r[j]);
                }
            }
        }
    }
}

} // verus!
