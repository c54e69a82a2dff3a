//! The loader's decisions. Reading files and the environment, and resolving paths against the
//! real filesystem, happen at the edge; what those reads feed is decided here: the path sigils
//! (`~` against the home, `$CWD` against the launch directory), the flat rule surface desugared
//! into grant sets, the enforcement-time rewrite of patterns onto the kernel's resolved paths,
//! the command-line sugar, and the checks that refuse an unattributable discovered grant, an
//! unknown credential type, or an `extends` cycle.

use vstd::prelude::*;
use crate::blueprint::{mode_read_mode, Blueprint, BlueprintModel, ExecModel, ExecPosture, Mode, NetModel, NetPosture, ReadMode};
use crate::catalog::{trim_slashes, trim_trailing_slashes, Catalog, ResolvedCatalog, ResolvedCatalogModel, ResolvedEntry, ResolvedEntryModel};
use crate::layer::{BlueprintLayer, FsLayer, LayerModel};
use crate::names::{copy_string, copy_strings, map_get, map_keys, names_sorted, strs_view, NameMap};
use crate::path::{canonical_model, find_from, join, parse_model, parse_result_view, render_abs, PathError, PathErrorModel, PathPattern, PatternModel};
use crate::path_set::{copy_patterns, pats_view};
use crate::text::{chars_of, has_prefix, push_all, push_char, push_str, slice_chars, starts_with, string_of};

verus! {

// ---------------------------------------------------------------------------------------------
// Path sigils

/// The expansion of a leading sigil: `~` is the home, `~/rest` is `rest` below it, `$CWD` is the
/// launch directory, `$CWD/rest` is `rest` below it; anything else is untouched.
pub open spec fn expand_text(home: Seq<char>, cwd: Seq<char>, s: Seq<char>) -> Seq<char> {
    if s == "~"@ {
        home
    } else if starts_with(s, "~/"@) {
        trim_trailing_slashes(home) + "/"@ + s.skip("~/"@.len() as int)
    } else if s == "$CWD"@ {
        cwd
    } else if starts_with(s, "$CWD/"@) {
        trim_trailing_slashes(cwd) + "/"@ + s.skip("$CWD/"@.len() as int)
    } else {
        s
    }
}

/// The command-line edge's path sigils, expanded identically on every surface (file, `--set`
/// fragments, sugar flags). A fixed, closed set of tokens: no general variable interpolation.
pub struct Sigils<'a> {
    home: &'a str,
    cwd: &'a str,
}

impl<'a> Sigils<'a> {
    pub closed spec fn home_text(&self) -> Seq<char> {
        self.home@
    }

    pub closed spec fn cwd_text(&self) -> Seq<char> {
        self.cwd@
    }

    pub fn new(home: &'a str, cwd: &'a str) -> (r: Sigils<'a>)
        ensures
            r.home_text() == home@,
            r.cwd_text() == cwd@,
    {
        Sigils { home, cwd }
    }

    /// Expands a leading sigil in one string.
    pub fn expand(&self, s: &str) -> (r: String)
        ensures
            r@ == expand_text(self.home_text(), self.cwd_text(), s@),
    {
        let v = chars_of(s);
        if crate::names::str_equal(s, "~") {
            String::from_str(self.home)
        } else if has_prefix(v.as_slice(), "~/") {
            let n = chars_of("~/").len();
            let mut out = string_of(trim_slashes(chars_of(self.home).as_slice()).as_slice());
            push_char(&mut out, '/');
            assert(seq!['/'] =~= "/"@) by {
                reveal_strlit("/");
            }
            push_all(&mut out, slice_chars(v.as_slice(), n, v.len()).as_slice());
            assert(v@.subrange(n as int, v.len() as int) =~= s@.skip(n as int));
            out
        } else if crate::names::str_equal(s, "$CWD") {
            String::from_str(self.cwd)
        } else if has_prefix(v.as_slice(), "$CWD/") {
            let n = chars_of("$CWD/").len();
            let mut out = string_of(trim_slashes(chars_of(self.cwd).as_slice()).as_slice());
            push_char(&mut out, '/');
            assert(seq!['/'] =~= "/"@) by {
                reveal_strlit("/");
            }
            push_all(&mut out, slice_chars(v.as_slice(), n, v.len()).as_slice());
            assert(v@.subrange(n as int, v.len() as int) =~= s@.skip(n as int));
            out
        } else {
            String::from_str(s)
        }
    }

    /// Does expanding `s` resolve `$CWD` to the whole home or the filesystem root (the launcher
    /// warns once: a `$CWD`-relative grant then covers far more than a project)?
    pub fn broad_cwd_expansion(&self, s: &str) -> (r: bool)
        ensures
            r == ((s@ == "$CWD"@ || starts_with(s@, "$CWD/"@)) && (self.cwd_text() == self.home_text()
                || self.cwd_text() == "/"@)),
    {
        let v = chars_of(s);
        (crate::names::str_equal(s, "$CWD") || has_prefix(v.as_slice(), "$CWD/")) && (crate::names::str_equal(
            self.cwd,
            self.home,
        ) || crate::names::str_equal(self.cwd, "/"))
    }
}

// ---------------------------------------------------------------------------------------------
// Whitespace trimming (`str::trim`)

/// Unicode `White_Space`, the set `str::trim` removes.
pub open spec fn is_space(c: char) -> bool {
    ('\t' <= c && c <= '\r') || c == ' ' || c == '\u{85}' || c == '\u{a0}' || c == '\u{1680}' || ('\u{2000}' <= c
        && c <= '\u{200a}') || c == '\u{2028}' || c == '\u{2029}' || c == '\u{202f}' || c == '\u{205f}' || c
        == '\u{3000}'
}

pub open spec fn trim_start(s: Seq<char>) -> Seq<char>
    decreases s.len(),
{
    if s.len() > 0 && is_space(s[0]) {
        trim_start(s.drop_first())
    } else {
        s
    }
}

pub open spec fn trim_end(s: Seq<char>) -> Seq<char>
    decreases s.len(),
{
    if s.len() > 0 && is_space(s.last()) {
        trim_end(s.drop_last())
    } else {
        s
    }
}

pub open spec fn trimmed(s: Seq<char>) -> Seq<char> {
    trim_end(trim_start(s))
}

fn space(c: char) -> (r: bool)
    ensures
        r == is_space(c),
{
    ('\t' <= c && c <= '\r') || c == ' ' || c == '\u{85}' || c == '\u{a0}' || c == '\u{1680}' || ('\u{2000}' <= c
        && c <= '\u{200a}') || c == '\u{2028}' || c == '\u{2029}' || c == '\u{202f}' || c == '\u{205f}' || c
        == '\u{3000}'
}

/// `s` without leading and trailing whitespace.
pub fn trim(s: &[char]) -> (r: Vec<char>)
    ensures
        r@ == trimmed(s@),
{
    let mut a: usize = 0;
    assert(s@.skip(0) =~= s@);
    while a < s.len() && space(s[a])
        invariant
            a <= s.len(),
            trim_start(s@) == trim_start(s@.skip(a as int)),
        decreases s.len() - a,
    {
        assert(s@.skip(a as int).drop_first() =~= s@.skip(a + 1));
        a = a + 1;
    }
    let ghost st = s@.skip(a as int);
    assert(trim_start(s@) == st);
    let mut b: usize = s.len();
    assert(st.take(st.len() as int) =~= st);
    while b > a && space(s[b - 1])
        invariant
            a <= b <= s.len(),
            st == s@.skip(a as int),
            trim_end(st) == trim_end(st.take(b - a)),
        decreases b,
    {
        assert(st.take(b - a).drop_last() =~= st.take(b - a - 1));
        assert(st.take(b - a).last() == s@[b - 1]);
        b = b - 1;
    }
    let r = slice_chars(s, a, b);
    assert(r@ =~= st.take(b - a));
    r
}

// ---------------------------------------------------------------------------------------------
// The flat rule surface

/// The rule verbs: `read`/`readonly` read, `readwrite` read and write, `write` modify without
/// create, `allow` write and execute, `readexec` read and execute, `exec` execute, `deny` a hole.
#[derive(Clone, Copy, Debug, PartialEq, Eq, Structural)]
pub enum RuleVerb {
    Read,
    ReadWrite,
    Write,
    Allow,
    ReadExec,
    Exec,
    Deny,
}

/// Which set a verb feeds.
#[derive(Clone, Copy, Debug, PartialEq, Eq, Structural)]
pub enum RuleField {
    Reads,
    Writes,
    WritesNoCreate,
    Subtract,
    ExecPaths,
}

pub open spec fn verb_feeds(v: RuleVerb, f: RuleField) -> bool {
    match f {
        RuleField::Reads => v == RuleVerb::Read || v == RuleVerb::ReadExec,
        RuleField::Writes => v == RuleVerb::ReadWrite || v == RuleVerb::Allow,
        RuleField::WritesNoCreate => v == RuleVerb::Write,
        RuleField::Subtract => v == RuleVerb::Deny,
        RuleField::ExecPaths => v == RuleVerb::Allow || v == RuleVerb::ReadExec || v == RuleVerb::Exec,
    }
}

pub open spec fn verb_of(s: Seq<char>) -> Option<RuleVerb> {
    if s == "read"@ || s == "readonly"@ {
        Some(RuleVerb::Read)
    } else if s == "readwrite"@ {
        Some(RuleVerb::ReadWrite)
    } else if s == "write"@ {
        Some(RuleVerb::Write)
    } else if s == "allow"@ {
        Some(RuleVerb::Allow)
    } else if s == "readexec"@ {
        Some(RuleVerb::ReadExec)
    } else if s == "exec"@ {
        Some(RuleVerb::Exec)
    } else if s == "deny"@ {
        Some(RuleVerb::Deny)
    } else {
        None
    }
}

/// Why a layer's flat surface could not be desugared.
#[derive(Debug)]
pub enum DesugarError {
    /// Both `mode` and `[fs] read-mode` were set in one layer.
    ModeAndReadMode,
    /// Exec verbs beside an explicit `exec = unrestricted` in the same layer.
    ExecConflict,
    /// A rule without the `<verb>:<path>` shape.
    NotARule(String),
    /// A rule whose path is not a pattern.
    BadPath { rule: String, error: PathError },
    UnknownVerb { verb: String, rule: String },
}

pub enum DesugarErrorModel {
    ModeAndReadMode,
    ExecConflict,
    NotARule(Seq<char>),
    BadPath { rule: Seq<char>, error: PathErrorModel },
    UnknownVerb { verb: Seq<char>, rule: Seq<char> },
}

impl View for DesugarError {
    type V = DesugarErrorModel;

    open spec fn view(&self) -> DesugarErrorModel {
        match self {
            DesugarError::ModeAndReadMode => DesugarErrorModel::ModeAndReadMode,
            DesugarError::ExecConflict => DesugarErrorModel::ExecConflict,
            DesugarError::NotARule(r) => DesugarErrorModel::NotARule(r@),
            DesugarError::BadPath { rule, error } => DesugarErrorModel::BadPath { rule: rule@, error: error@ },
            DesugarError::UnknownVerb { verb, rule } => DesugarErrorModel::UnknownVerb { verb: verb@, rule: rule@ },
        }
    }
}

/// One rule: split at its first `:`, the path trimmed, sigil-expanded and parsed, then the verb
/// (trimmed) looked up.
pub open spec fn rule_model(raw: Seq<char>, home: Seq<char>, cwd: Seq<char>) -> Result<(RuleVerb, PatternModel), DesugarErrorModel> {
    match find_from(raw, ":"@, 0) {
        None => Err(DesugarErrorModel::NotARule(raw)),
        Some(k) => match parse_model(expand_text(home, cwd, trimmed(raw.skip(k + 1)))) {
            Err(e) => Err(DesugarErrorModel::BadPath { rule: raw, error: e }),
            Ok(p) => match verb_of(trimmed(raw.take(k))) {
                None => Err(DesugarErrorModel::UnknownVerb { verb: trimmed(raw.take(k)), rule: raw }),
                Some(v) => Ok((v, p)),
            },
        },
    }
}

/// All rules in order; the first failure wins.
pub open spec fn rules_model(rules: Seq<Seq<char>>, home: Seq<char>, cwd: Seq<char>) -> Result<Seq<(RuleVerb, PatternModel)>, DesugarErrorModel>
    decreases rules.len(),
{
    if rules.len() == 0 {
        Ok(Seq::empty())
    } else {
        match rules_model(rules.drop_last(), home, cwd) {
            Err(e) => Err(e),
            Ok(done) => match rule_model(rules.last(), home, cwd) {
                Err(e) => Err(e),
                Ok(r) => Ok(done.push(r)),
            },
        }
    }
}

/// The patterns of the rules whose verb feeds `f`, in order.
pub open spec fn picked(rs: Seq<(RuleVerb, PatternModel)>, f: RuleField) -> Seq<PatternModel>
    decreases rs.len(),
{
    if rs.len() == 0 {
        Seq::empty()
    } else if verb_feeds(rs.last().0, f) {
        picked(rs.drop_last(), f).push(rs.last().1)
    } else {
        picked(rs.drop_last(), f)
    }
}

/// The layer after desugaring: `mode` moves onto the read mode; each rule appends its pattern to
/// the sets its verb feeds; exec verbs extend the layer's own allow-list (an explicit
/// unrestricted exec conflicts).
pub open spec fn desugared(l: LayerModel, mode: Option<Mode>, rules: Seq<Seq<char>>, home: Seq<char>, cwd: Seq<char>) -> Result<LayerModel, DesugarErrorModel> {
    if mode is Some && l.read_mode is Some {
        Err(DesugarErrorModel::ModeAndReadMode)
    } else {
        let l1 = LayerModel {
            read_mode: match mode {
                Some(m) => Some(mode_read_mode(m)),
                None => l.read_mode,
            },
            ..l
        };
        if rules.len() == 0 {
            Ok(l1)
        } else if l.exec_posture == Some(ExecModel::Unrestricted) {
            Err(DesugarErrorModel::ExecConflict)
        } else {
            match rules_model(rules, home, cwd) {
                Err(e) => Err(e),
                Ok(rs) => {
                    let base = match l.exec_posture {
                        Some(ExecModel::Allowlist(p)) => p,
                        _ => Seq::empty(),
                    };
                    let exec_paths = base + picked(rs, RuleField::ExecPaths);
                    Ok(
                        LayerModel {
                            reads: l.reads + picked(rs, RuleField::Reads),
                            writes: l.writes + picked(rs, RuleField::Writes),
                            writes_no_create: l.writes_no_create + picked(rs, RuleField::WritesNoCreate),
                            subtract: l.subtract + picked(rs, RuleField::Subtract),
                            exec_posture: if exec_paths.len() > 0 {
                                Some(ExecModel::Allowlist(exec_paths))
                            } else {
                                None
                            },
                            ..l1
                        },
                    )
                },
            }
        }
    }
}

proof fn lemma_picked(rs: Seq<(RuleVerb, PatternModel)>, f: RuleField)
    ensures
        forall|j: int| 0 <= j < rs.len() && verb_feeds(rs[j].0, f) ==> picked(rs, f).contains(#[trigger] rs[j].1),
        forall|x: PatternModel| #[trigger] picked(rs, f).contains(x) ==> exists|j: int| 0 <= j < rs.len() && verb_feeds(rs[j].0, f) && rs[j].1 == x,
    decreases rs.len(),
{
    if rs.len() > 0 {
        let init = rs.drop_last();
        lemma_picked(init, f);
        let p0 = picked(init, f);
        let pk = picked(rs, f);
        assert forall|j: int| 0 <= j < rs.len() && verb_feeds(rs[j].0, f) implies pk.contains(#[trigger] rs[j].1) by {
            if j < init.len() {
                assert(init[j] == rs[j]);
                assert(p0.contains(init[j].1));
                let k = choose|k: int| 0 <= k < p0.len() && p0[k] == init[j].1;
                if verb_feeds(rs.last().0, f) {
                    assert(pk[k] == p0[k]);
                }
            } else {
                assert(pk[pk.len() - 1] == rs[j].1);
            }
        }
        assert forall|x: PatternModel| #[trigger] pk.contains(x) implies exists|j: int| 0 <= j < rs.len() && verb_feeds(rs[j].0, f) && rs[j].1 == x by {
            let k = choose|k: int| 0 <= k < pk.len() && pk[k] == x;
            if k < p0.len() {
                assert(p0[k] == pk[k]);
                assert(p0.contains(x));
                let j = choose|j: int| 0 <= j < init.len() && verb_feeds(init[j].0, f) && init[j].1 == x;
                assert(rs[j] == init[j]);
            } else {
                assert(rs[rs.len() - 1].1 == x);
            }
        }
    }
}

/// Every flat rule lands where its verb says, and only there: `read`/`readonly` and `readexec`
/// in the reads; `readwrite` and `allow` in the writes; `write` in the modify-only writes; `deny`
/// in the subtract set; `allow`, `readexec` and `exec` in the exec allow-list. Whatever else a set
/// holds was already in the layer.
pub proof fn desugared_rules_land_where_their_verbs_say(l: LayerModel, mode: Option<Mode>, rules: Seq<Seq<char>>, home: Seq<char>, cwd: Seq<char>)
    requires
        desugared(l, mode, rules, home, cwd) is Ok,
        rules.len() > 0,
    ensures
        rules_model(rules, home, cwd) is Ok,
        ({
            let rs = rules_model(rules, home, cwd)->Ok_0;
            let out = desugared(l, mode, rules, home, cwd)->Ok_0;
            &&& forall|j: int| 0 <= j < rs.len() ==> {
                &&& (rs[j].0 == RuleVerb::Read || rs[j].0 == RuleVerb::ReadExec) ==> out.reads.contains(#[trigger] rs[j].1)
                &&& (rs[j].0 == RuleVerb::ReadWrite || rs[j].0 == RuleVerb::Allow) ==> out.writes.contains(rs[j].1)
                &&& rs[j].0 == RuleVerb::Write ==> out.writes_no_create.contains(rs[j].1)
                &&& rs[j].0 == RuleVerb::Deny ==> out.subtract.contains(rs[j].1)
                &&& (rs[j].0 == RuleVerb::Allow || rs[j].0 == RuleVerb::ReadExec || rs[j].0 == RuleVerb::Exec)
                    ==> (out.exec_posture matches Some(ExecModel::Allowlist(ps)) && ps.contains(rs[j].1))
            }
            &&& forall|x: PatternModel| #[trigger] out.reads.contains(x) ==> l.reads.contains(x) || exists|j: int| 0 <= j < rs.len()
                && (rs[j].0 == RuleVerb::Read || rs[j].0 == RuleVerb::ReadExec) && rs[j].1 == x
            &&& forall|x: PatternModel| #[trigger] out.writes.contains(x) ==> l.writes.contains(x) || exists|j: int| 0 <= j < rs.len()
                && (rs[j].0 == RuleVerb::ReadWrite || rs[j].0 == RuleVerb::Allow) && rs[j].1 == x
            &&& forall|x: PatternModel| #[trigger] out.writes_no_create.contains(x) ==> l.writes_no_create.contains(x) || exists|j: int| 0 <= j < rs.len()
                && rs[j].0 == RuleVerb::Write && rs[j].1 == x
            &&& forall|x: PatternModel| #[trigger] out.subtract.contains(x) ==> l.subtract.contains(x) || exists|j: int| 0 <= j < rs.len()
                && rs[j].0 == RuleVerb::Deny && rs[j].1 == x
        }),
{
    let rs = rules_model(rules, home, cwd)->Ok_0;
    let out = desugared(l, mode, rules, home, cwd)->Ok_0;
    lemma_picked(rs, RuleField::Reads);
    lemma_picked(rs, RuleField::Writes);
    lemma_picked(rs, RuleField::WritesNoCreate);
    lemma_picked(rs, RuleField::Subtract);
    lemma_picked(rs, RuleField::ExecPaths);
    let base = match l.exec_posture {
        Some(ExecModel::Allowlist(p)) => p,
        _ => Seq::empty(),
    };
    let ex = picked(rs, RuleField::ExecPaths);
    assert(l.exec_posture != Some(ExecModel::Unrestricted));
    assert(out.exec_posture == if (base + ex).len() > 0 { Some(ExecModel::Allowlist(base + ex)) } else { None });
    assert forall|j: int| 0 <= j < rs.len() implies {
        &&& (rs[j].0 == RuleVerb::Read || rs[j].0 == RuleVerb::ReadExec) ==> out.reads.contains(#[trigger] rs[j].1)
        &&& (rs[j].0 == RuleVerb::ReadWrite || rs[j].0 == RuleVerb::Allow) ==> out.writes.contains(rs[j].1)
        &&& rs[j].0 == RuleVerb::Write ==> out.writes_no_create.contains(rs[j].1)
        &&& rs[j].0 == RuleVerb::Deny ==> out.subtract.contains(rs[j].1)
        &&& (rs[j].0 == RuleVerb::Allow || rs[j].0 == RuleVerb::ReadExec || rs[j].0 == RuleVerb::Exec)
            ==> (out.exec_posture matches Some(ExecModel::Allowlist(ps)) && ps.contains(rs[j].1))
    } by {
        lemma_concat_contains(l.reads, picked(rs, RuleField::Reads), rs[j].1);
        lemma_concat_contains(l.writes, picked(rs, RuleField::Writes), rs[j].1);
        lemma_concat_contains(l.writes_no_create, picked(rs, RuleField::WritesNoCreate), rs[j].1);
        lemma_concat_contains(l.subtract, picked(rs, RuleField::Subtract), rs[j].1);
        lemma_concat_contains(base, ex, rs[j].1);
        if rs[j].0 == RuleVerb::Allow || rs[j].0 == RuleVerb::ReadExec || rs[j].0 == RuleVerb::Exec {
            assert(verb_feeds(rs[j].0, RuleField::ExecPaths));
            assert(ex.contains(rs[j].1));
            assert((base + ex).contains(rs[j].1));
            assert((base + ex).len() > 0);
        }
    }
    assert forall|x: PatternModel| #[trigger] out.reads.contains(x) implies l.reads.contains(x) || exists|j: int| 0 <= j < rs.len()
        && (rs[j].0 == RuleVerb::Read || rs[j].0 == RuleVerb::ReadExec) && rs[j].1 == x by {
        lemma_concat_contains(l.reads, picked(rs, RuleField::Reads), x);
    }
    assert forall|x: PatternModel| #[trigger] out.writes.contains(x) implies l.writes.contains(x) || exists|j: int| 0 <= j < rs.len()
        && (rs[j].0 == RuleVerb::ReadWrite || rs[j].0 == RuleVerb::Allow) && rs[j].1 == x by {
        lemma_concat_contains(l.writes, picked(rs, RuleField::Writes), x);
    }
    assert forall|x: PatternModel| #[trigger] out.writes_no_create.contains(x) implies l.writes_no_create.contains(x) || exists|j: int| 0 <= j < rs.len()
        && rs[j].0 == RuleVerb::Write && rs[j].1 == x by {
        lemma_concat_contains(l.writes_no_create, picked(rs, RuleField::WritesNoCreate), x);
    }
    assert forall|x: PatternModel| #[trigger] out.subtract.contains(x) implies l.subtract.contains(x) || exists|j: int| 0 <= j < rs.len()
        && rs[j].0 == RuleVerb::Deny && rs[j].1 == x by {
        lemma_concat_contains(l.subtract, picked(rs, RuleField::Subtract), x);
    }
}

/// A member of a concatenation is a member of one of its parts, and each part's members are in it.
proof fn lemma_concat_contains(a: Seq<PatternModel>, b: Seq<PatternModel>, x: PatternModel)
    ensures
        (a + b).contains(x) <==> a.contains(x) || b.contains(x),
{
    if (a + b).contains(x) {
        let k = choose|k: int| 0 <= k < (a + b).len() && (a + b)[k] == x;
        if k < a.len() {
            assert(a[k] == x);
        } else {
            assert(b[k - a.len()] == x);
        }
    }
    if a.contains(x) {
        let k = choose|k: int| 0 <= k < a.len() && a[k] == x;
        assert((a + b)[k] == x);
    }
    if b.contains(x) {
        let k = choose|k: int| 0 <= k < b.len() && b[k] == x;
        assert((a + b)[a.len() + k] == x);
    }
}

fn verb_exec(s: &[char]) -> (r: Option<RuleVerb>)
    ensures
        r == verb_of(s@),
{
    if crate::text::chars_eq_str(s, "read") || crate::text::chars_eq_str(s, "readonly") {
        Some(RuleVerb::Read)
    } else if crate::text::chars_eq_str(s, "readwrite") {
        Some(RuleVerb::ReadWrite)
    } else if crate::text::chars_eq_str(s, "write") {
        Some(RuleVerb::Write)
    } else if crate::text::chars_eq_str(s, "allow") {
        Some(RuleVerb::Allow)
    } else if crate::text::chars_eq_str(s, "readexec") {
        Some(RuleVerb::ReadExec)
    } else if crate::text::chars_eq_str(s, "exec") {
        Some(RuleVerb::Exec)
    } else if crate::text::chars_eq_str(s, "deny") {
        Some(RuleVerb::Deny)
    } else {
        None
    }
}

fn desugar_rule(raw: &String, sigils: &Sigils) -> (r: Result<(RuleVerb, PathPattern), DesugarError>)
    ensures
        match r {
            Ok(x) => rule_model(raw@, sigils.home_text(), sigils.cwd_text()) == Ok::<(RuleVerb, PatternModel), DesugarErrorModel>((x.0, x.1@)),
            Err(e) => rule_model(raw@, sigils.home_text(), sigils.cwd_text()) == Err::<(RuleVerb, PatternModel), DesugarErrorModel>(e@),
        },
{
    let v = chars_of(raw.as_str());
    let k = match crate::learn::find_text(v.as_slice(), ":", 0) {
        None => return Err(DesugarError::NotARule(copy_string(raw))),
        Some(k) => k,
    };
    proof {
        crate::path::lemma_find_from_some(v@, ":"@, 0, k as int);
        assert(":"@.len() == 1) by {
            reveal_strlit(":");
        }
    }
    let path_part = slice_chars(v.as_slice(), k + 1, v.len());
    assert(path_part@ =~= raw@.skip(k + 1));
    let path = trim(path_part.as_slice());
    let expanded = sigils.expand(string_of(path.as_slice()).as_str());
    let pat = match PathPattern::parse(expanded.as_str()) {
        Err(e) => return Err(DesugarError::BadPath { rule: copy_string(raw), error: e }),
        Ok(p) => p,
    };
    let verb_part = slice_chars(v.as_slice(), 0, k);
    assert(verb_part@ =~= raw@.take(k as int));
    let verb = trim(verb_part.as_slice());
    match verb_exec(verb.as_slice()) {
        None => Err(DesugarError::UnknownVerb { verb: string_of(verb.as_slice()), rule: copy_string(raw) }),
        Some(vb) => Ok((vb, pat)),
    }
}

fn pick_patterns(rs: &Vec<(RuleVerb, PathPattern)>, f: RuleField) -> (r: Vec<PathPattern>)
    ensures
        pats_view(r@) == picked(rules_view(rs@), f),
{
    let ghost rv = rules_view(rs@);
    let mut out: Vec<PathPattern> = Vec::new();
    let mut i: usize = 0;
    while i < rs.len()
        invariant
            rv == rules_view(rs@),
            i <= rs.len(),
            pats_view(out@) == picked(rv.take(i as int), f),
        decreases rs.len() - i,
    {
        assert(rv.take(i + 1).drop_last() =~= rv.take(i as int));
        assert(rv.take(i + 1).last() == rv[i as int]);
        let ghost before = pats_view(out@);
        let feeds = match f {
            RuleField::Reads => rs[i].0 == RuleVerb::Read || rs[i].0 == RuleVerb::ReadExec,
            RuleField::Writes => rs[i].0 == RuleVerb::ReadWrite || rs[i].0 == RuleVerb::Allow,
            RuleField::WritesNoCreate => rs[i].0 == RuleVerb::Write,
            RuleField::Subtract => rs[i].0 == RuleVerb::Deny,
            RuleField::ExecPaths => rs[i].0 == RuleVerb::Allow || rs[i].0 == RuleVerb::ReadExec || rs[i].0
                == RuleVerb::Exec,
        };
        if feeds {
            out.push(rs[i].1.copy());
            assert(pats_view(out@) =~= before.push(rv[i as int].1));
        }
        i = i + 1;
    }
    assert(rv.take(rs.len() as int) =~= rv);
    out
}

pub open spec fn rules_view(v: Seq<(RuleVerb, PathPattern)>) -> Seq<(RuleVerb, PatternModel)> {
    v.map_values(|r: (RuleVerb, PathPattern)| (r.0, r.1@))
}

fn append_patterns(dst: &mut Vec<PathPattern>, src: Vec<PathPattern>)
    ensures
        pats_view(final(dst)@) == pats_view(old(dst)@) + pats_view(src@),
{
    let ghost start = pats_view(dst@);
    let mut i: usize = 0;
    while i < src.len()
        invariant
            i <= src.len(),
            pats_view(dst@) == start + pats_view(src@).take(i as int),
        decreases src.len() - i,
    {
        let ghost before = pats_view(dst@);
        dst.push(src[i].copy());
        assert(pats_view(dst@) =~= before.push(src@[i as int]@));
        assert(pats_view(src@).take(i + 1) =~= pats_view(src@).take(i as int).push(src@[i as int]@));
        i = i + 1;
    }
    assert(pats_view(src@).take(src.len() as int) =~= pats_view(src@));
}

/// Desugars a layer's `mode` and flat rules into its grant sets and exec posture, then empties
/// them, so verbs never reach the merge. On failure the layer is left as it was.
pub fn desugar_rules(layer: &mut BlueprintLayer, sigils: &Sigils) -> (r: Result<(), DesugarError>)
    ensures
        match (r, desugared(old(layer)@, old(layer).mode, strs_view(old(layer).rules@), sigils.home_text(), sigils.cwd_text())) {
            (Ok(_), Ok(l)) => {
                &&& final(layer)@ == l
                &&& final(layer).mode is None
                &&& final(layer).rules@.len() == 0
                &&& final(layer).extends@ == old(layer).extends@
                &&& final(layer).discovery.provenance@ == old(layer).discovery.provenance@
            },
            (Err(e), Err(m)) => e@ == m && *final(layer) == *old(layer),
            _ => false,
        },
{
    let ghost rules0 = strs_view(layer.rules@);
    if layer.mode.is_some() && layer.fs.read_mode.is_some() {
        return Err(DesugarError::ModeAndReadMode);
    }
    let read_mode = match layer.mode {
        Some(m) => Some(m.read_mode()),
        None => layer.fs.read_mode,
    };
    if layer.rules.len() == 0 {
        layer.fs.read_mode = read_mode;
        layer.mode = None;
        return Ok(());
    }
    let base: Vec<PathPattern> = match &layer.exec_posture {
        Some(ExecPosture::Unrestricted) => {
            return Err(DesugarError::ExecConflict);
        },
        Some(ExecPosture::Allowlist(p)) => copy_patterns(p),
        None => Vec::new(),
    };
    let mut rs: Vec<(RuleVerb, PathPattern)> = Vec::new();
    let mut i: usize = 0;
    assert(rules0.take(0) =~= Seq::<Seq<char>>::empty());
    assert(rules_view(rs@) =~= Seq::<(RuleVerb, PatternModel)>::empty());
    while i < layer.rules.len()
        invariant
            rules0 == strs_view(layer.rules@),
            rules0 == strs_view(old(layer).rules@),
            *layer == *old(layer),
            !(old(layer).mode is Some && old(layer).fs.read_mode is Some),
            old(layer).rules@.len() > 0,
            old(layer)@.exec_posture != Some(ExecModel::Unrestricted),
            i <= layer.rules.len(),
            rules_model(rules0.take(i as int), sigils.home_text(), sigils.cwd_text()) == Ok::<Seq<(RuleVerb, PatternModel)>, DesugarErrorModel>(rules_view(rs@)),
        decreases layer.rules.len() - i,
    {
        assert(rules0.take(i + 1).drop_last() =~= rules0.take(i as int));
        assert(rules0.take(i + 1).last() == rules0[i as int]);
        match desugar_rule(&layer.rules[i], sigils) {
            Err(e) => {
                proof {
                    lemma_rules_error_sticks(rules0, i as int + 1, sigils.home_text(), sigils.cwd_text());
                }
                return Err(e);
            },
            Ok(x) => {
                let ghost before = rules_view(rs@);
                rs.push(x);
                assert(rules_view(rs@) =~= before.push((x.0, x.1@)));
            },
        }
        i = i + 1;
    }
    assert(rules0.take(layer.rules.len() as int) =~= rules0);
    let reads = pick_patterns(&rs, RuleField::Reads);
    let writes = pick_patterns(&rs, RuleField::Writes);
    let wnc = pick_patterns(&rs, RuleField::WritesNoCreate);
    let subtract = pick_patterns(&rs, RuleField::Subtract);
    let exec_extra = pick_patterns(&rs, RuleField::ExecPaths);
    let mut exec_paths = base;
    append_patterns(&mut exec_paths, exec_extra);
    append_patterns(&mut layer.fs.reads, reads);
    append_patterns(&mut layer.fs.writes, writes);
    append_patterns(&mut layer.fs.writes_no_create, wnc);
    append_patterns(&mut layer.fs.subtract, subtract);
    layer.fs.read_mode = read_mode;
    layer.mode = None;
    layer.rules = Vec::new();
    if exec_paths.len() > 0 {
        layer.exec_posture = Some(ExecPosture::Allowlist(exec_paths));
    } else {
        layer.exec_posture = None;
    }
    Ok(())
}

/// Once a prefix of the rules fails, every longer prefix fails the same way.
proof fn lemma_rules_error_sticks(rules: Seq<Seq<char>>, n: int, home: Seq<char>, cwd: Seq<char>)
    requires
        0 < n <= rules.len(),
        rules_model(rules.take(n), home, cwd) is Err,
    ensures
        rules_model(rules, home, cwd) == rules_model(rules.take(n), home, cwd),
    decreases rules.len() - n,
{
    if n < rules.len() {
        assert(rules.take(n + 1).drop_last() =~= rules.take(n));
        lemma_rules_error_sticks(rules, n + 1, home, cwd);
    } else {
        assert(rules.take(n) =~= rules);
    }
}

// ---------------------------------------------------------------------------------------------
// Enforcement-time resolution

/// How the edge resolved a path against the real filesystem (its longest existing ancestor
/// canonicalized, the rest re-appended): the kernel's view of it, or a path that is not UTF-8.
#[derive(Clone, Debug, PartialEq, Eq)]
pub enum Resolution {
    Path(String),
    NotUtf8,
}

pub enum ResolutionModel {
    Path(Seq<char>),
    NotUtf8,
}

impl View for Resolution {
    type V = ResolutionModel;

    open spec fn view(&self) -> ResolutionModel {
        match self {
            Resolution::Path(p) => ResolutionModel::Path(p@),
            Resolution::NotUtf8 => ResolutionModel::NotUtf8,
        }
    }
}

/// The resolved text for `key`; a key the edge did not resolve stands for itself.
pub open spec fn resolved_text(res: Seq<(Seq<char>, ResolutionModel)>, key: Seq<char>) -> Option<Seq<char>> {
    match map_get(res, key) {
        None => Some(key),
        Some(ResolutionModel::Path(p)) => Some(p),
        Some(ResolutionModel::NotUtf8) => None,
    }
}

/// What of a pattern the edge resolves: an absolute pattern's base, an anchored any-depth
/// pattern's anchor. An unanchored any-depth suffix is a match suffix, not a path.
pub open spec fn resolution_key_of(p: PatternModel) -> Option<Seq<char>> {
    if p.any_depth {
        match p.anchor {
            Some(a) => Some(render_abs(a)),
            None => None,
        }
    } else {
        Some(render_abs(p.base))
    }
}

pub fn resolution_key(p: &PathPattern) -> (r: Option<String>)
    ensures
        match r {
            Some(s) => resolution_key_of(p@) == Some(s@),
            None => resolution_key_of(p@) is None,
        },
{
    if p.is_any_depth() {
        p.anchor()
    } else {
        Some(p.base())
    }
}

/// A resolved path that cannot be rendered faithfully into a rule: enforcing it could silently
/// fail to match (for a hole, a silent fail-open).
#[derive(Debug)]
pub enum EnforcementError {
    AnchorNotUtf8(String),
    PathNotUtf8(String),
}

pub enum EnforcementErrorModel {
    AnchorNotUtf8(Seq<char>),
    PathNotUtf8(Seq<char>),
}

impl View for EnforcementError {
    type V = EnforcementErrorModel;

    open spec fn view(&self) -> EnforcementErrorModel {
        match self {
            EnforcementError::AnchorNotUtf8(p) => EnforcementErrorModel::AnchorNotUtf8(p@),
            EnforcementError::PathNotUtf8(p) => EnforcementErrorModel::PathNotUtf8(p@),
        }
    }
}

pub open spec fn subtree_suffix(subtree: bool) -> Seq<char> {
    if subtree {
        "/**"@
    } else {
        ""@
    }
}

/// A pattern moved onto the kernel's resolved path: the base (or an anchored form's anchor) is
/// replaced by its resolution and re-parsed; if that does not parse, the original stands.
pub open spec fn canon_model(p: PatternModel, res: Seq<(Seq<char>, ResolutionModel)>) -> Result<PatternModel, EnforcementErrorModel> {
    if p.any_depth {
        match p.anchor {
            None => Ok(p),
            Some(a) => match resolved_text(res, render_abs(a)) {
                None => Err(EnforcementErrorModel::AnchorNotUtf8(canonical_model(p))),
                Some(t) => match parse_model(trim_trailing_slashes(t) + "/**/"@ + join(p.base) + subtree_suffix(p.subtree)) {
                    Ok(q) => Ok(q),
                    Err(_) => Ok(p),
                },
            },
        }
    } else {
        match resolved_text(res, render_abs(p.base)) {
            None => Err(EnforcementErrorModel::PathNotUtf8(canonical_model(p))),
            Some(t) => match parse_model(t + subtree_suffix(p.subtree)) {
                Ok(q) => Ok(q),
                Err(_) => Ok(p),
            },
        }
    }
}

/// Every pattern moved, in order; the first failure wins.
pub open spec fn canon_all_model(ps: Seq<PatternModel>, res: Seq<(Seq<char>, ResolutionModel)>) -> Result<Seq<PatternModel>, EnforcementErrorModel>
    decreases ps.len(),
{
    if ps.len() == 0 {
        Ok(Seq::empty())
    } else {
        match canon_all_model(ps.drop_last(), res) {
            Err(e) => Err(e),
            Ok(done) => match canon_model(ps.last(), res) {
                Err(e) => Err(e),
                Ok(q) => Ok(done.push(q)),
            },
        }
    }
}

fn lookup(res: &NameMap<Resolution>, key: &str) -> (r: Option<String>)
    ensures
        match r {
            Some(s) => resolved_text(res@, key@) == Some(s@),
            None => resolved_text(res@, key@) is None,
        },
{
    match res.get(key) {
        None => Some(String::from_str(key)),
        Some(Resolution::Path(p)) => Some(copy_string(p)),
        Some(Resolution::NotUtf8) => None,
    }
}

fn push_subtree(out: &mut String, subtree: bool)
    ensures
        final(out)@ == old(out)@ + subtree_suffix(subtree),
{
    if subtree {
        push_str(out, "/**");
    } else {
        push_str(out, "");
    }
}

/// One pattern moved onto the kernel's resolved path.
pub fn canon_pattern(p: &PathPattern, res: &NameMap<Resolution>) -> (r: Result<PathPattern, EnforcementError>)
    ensures
        match r {
            Ok(q) => canon_model(p@, res@) == Ok::<PatternModel, EnforcementErrorModel>(q@),
            Err(e) => canon_model(p@, res@) == Err::<PatternModel, EnforcementErrorModel>(e@),
        },
{
    if p.is_any_depth() {
        match p.anchor() {
            None => Ok(p.copy()),
            Some(a) => match lookup(res, a.as_str()) {
                None => Err(EnforcementError::AnchorNotUtf8(p.canonical())),
                Some(t) => {
                    let mut s = string_of(trim_slashes(chars_of(t.as_str()).as_slice()).as_slice());
                    push_str(&mut s, "/**/");
                    let b = p.base();
                    push_str(&mut s, b.as_str());
                    push_subtree(&mut s, p.is_subtree());
                    match PathPattern::parse(s.as_str()) {
                        Ok(q) => Ok(q),
                        Err(_) => Ok(p.copy()),
                    }
                },
            },
        }
    } else {
        let b = p.base();
        match lookup(res, b.as_str()) {
            None => Err(EnforcementError::PathNotUtf8(p.canonical())),
            Some(t) => {
                let mut s = t;
                push_subtree(&mut s, p.is_subtree());
                match PathPattern::parse(s.as_str()) {
                    Ok(q) => Ok(q),
                    Err(_) => Ok(p.copy()),
                }
            },
        }
    }
}

/// Every pattern of a set moved onto the kernel's resolved paths.
pub fn canon_all(ps: &Vec<PathPattern>, res: &NameMap<Resolution>) -> (r: Result<Vec<PathPattern>, EnforcementError>)
    ensures
        match r {
            Ok(q) => canon_all_model(pats_view(ps@), res@) == Ok::<Seq<PatternModel>, EnforcementErrorModel>(pats_view(q@)),
            Err(e) => canon_all_model(pats_view(ps@), res@) == Err::<Seq<PatternModel>, EnforcementErrorModel>(e@),
        },
{
    let ghost pv = pats_view(ps@);
    let mut out: Vec<PathPattern> = Vec::new();
    let mut i: usize = 0;
    assert(pv.take(0) =~= Seq::<PatternModel>::empty());
    assert(pats_view(out@) =~= Seq::<PatternModel>::empty());
    while i < ps.len()
        invariant
            pv == pats_view(ps@),
            i <= ps.len(),
            canon_all_model(pv.take(i as int), res@) == Ok::<Seq<PatternModel>, EnforcementErrorModel>(pats_view(out@)),
        decreases ps.len() - i,
    {
        assert(pv.take(i + 1).drop_last() =~= pv.take(i as int));
        assert(pv.take(i + 1).last() == pv[i as int]);
        match canon_pattern(&ps[i], res) {
            Err(e) => {
                proof {
                    lemma_canon_error_sticks(pv, i + 1, res@);
                }
                return Err(e);
            },
            Ok(q) => {
                let ghost before = pats_view(out@);
                out.push(q);
                assert(pats_view(out@) =~= before.push(q@));
            },
        }
        i = i + 1;
    }
    assert(pv.take(ps.len() as int) =~= pv);
    Ok(out)
}

proof fn lemma_canon_error_sticks(ps: Seq<PatternModel>, n: int, res: Seq<(Seq<char>, ResolutionModel)>)
    requires
        0 < n <= ps.len(),
        canon_all_model(ps.take(n), res) is Err,
    ensures
        canon_all_model(ps, res) == canon_all_model(ps.take(n), res),
    decreases ps.len() - n,
{
    if n < ps.len() {
        assert(ps.take(n + 1).drop_last() =~= ps.take(n));
        lemma_canon_error_sticks(ps, n + 1, res);
    } else {
        assert(ps.take(n) =~= ps);
    }
}

/// The blueprint with its grant paths, holes, exec allow-list and auto-widen zone moved onto the
/// kernel's resolved paths (in that order of failure); everything else unchanged.
pub open spec fn enforced_model(b: BlueprintModel, res: Seq<(Seq<char>, ResolutionModel)>) -> Result<BlueprintModel, EnforcementErrorModel> {
    match canon_all_model(b.fs.reads, res) {
        Err(e) => Err(e),
        Ok(reads) => match canon_all_model(b.fs.writes, res) {
            Err(e) => Err(e),
            Ok(writes) => match canon_all_model(b.fs.subtract, res) {
                Err(e) => Err(e),
                Ok(subtract) => match (match b.exec_posture {
                    ExecModel::Allowlist(ps) => match canon_all_model(ps, res) {
                        Err(e) => Err(e),
                        Ok(q) => Ok(ExecModel::Allowlist(q)),
                    },
                    ExecModel::Unrestricted => Ok(ExecModel::Unrestricted),
                }) {
                    Err(e) => Err(e),
                    Ok(exec) => match canon_all_model(b.auto_widen, res) {
                        Err(e) => Err(e),
                        Ok(zone) => Ok(
                            BlueprintModel {
                                fs: crate::blueprint::FsModel { reads, writes, subtract, ..b.fs },
                                exec_posture: exec,
                                auto_widen: zone,
                                ..b
                            },
                        ),
                    },
                },
            },
        },
    }
}

/// Enforcement path only (never a dry run): the blueprint's patterns moved onto the kernel's
/// resolved paths, as the edge resolved them in `res`.
pub fn canonicalize_for_enforcement(blueprint: &Blueprint, res: &NameMap<Resolution>) -> (r: Result<Blueprint, EnforcementError>)
    ensures
        match r {
            Ok(b) => enforced_model(blueprint@, res@) == Ok::<BlueprintModel, EnforcementErrorModel>(b@),
            Err(e) => enforced_model(blueprint@, res@) == Err::<BlueprintModel, EnforcementErrorModel>(e@),
        },
{
    let reads = match canon_all(&blueprint.fs.reads, res) {
        Err(e) => return Err(e),
        Ok(x) => x,
    };
    let writes = match canon_all(&blueprint.fs.writes, res) {
        Err(e) => return Err(e),
        Ok(x) => x,
    };
    let subtract = match canon_all(&blueprint.fs.subtract, res) {
        Err(e) => return Err(e),
        Ok(x) => x,
    };
    let exec_posture = match &blueprint.exec_posture {
        ExecPosture::Allowlist(ps) => match canon_all(ps, res) {
            Err(e) => return Err(e),
            Ok(x) => ExecPosture::Allowlist(x),
        },
        ExecPosture::Unrestricted => ExecPosture::Unrestricted,
    };
    let zone = match canon_all(&blueprint.discovery.auto_widen, res) {
        Err(e) => return Err(e),
        Ok(x) => x,
    };
    let out = Blueprint {
        fs: crate::blueprint::FsBlueprint {
            read_mode: blueprint.fs.read_mode,
            reads,
            writes,
            writes_no_create: copy_patterns(&blueprint.fs.writes_no_create),
            subtract,
            write_subtract: copy_patterns(&blueprint.fs.write_subtract),
        },
        net: blueprint.net.copy(),
        exec_posture,
        env: blueprint.env.copy(),
        mcp: crate::blueprint::copy_servers(&blueprint.mcp),
        allow_credentials: copy_strings(&blueprint.allow_credentials),
        discovery: crate::blueprint::DiscoveryBlueprint { auto_widen: zone },
    };
    Ok(out)
}

/// The catalog's types (in name order) with their paths moved, then the backstop.
pub open spec fn canon_types_model(types: Seq<(Seq<char>, ResolvedEntryModel)>, res: Seq<(Seq<char>, ResolutionModel)>) -> Result<Seq<(Seq<char>, ResolvedEntryModel)>, EnforcementErrorModel>
    decreases types.len(),
{
    if types.len() == 0 {
        Ok(Seq::empty())
    } else {
        match canon_types_model(types.drop_last(), res) {
            Err(e) => Err(e),
            Ok(done) => match canon_all_model(types.last().1.paths, res) {
                Err(e) => Err(e),
                Ok(q) => Ok(done.push((types.last().0, ResolvedEntryModel { paths: q, ..types.last().1 }))),
            },
        }
    }
}

pub open spec fn enforced_catalog_model(c: ResolvedCatalogModel, res: Seq<(Seq<char>, ResolutionModel)>) -> Result<ResolvedCatalogModel, EnforcementErrorModel> {
    match canon_types_model(c.types, res) {
        Err(e) => Err(e),
        Ok(types) => match canon_all_model(c.backstop, res) {
            Err(e) => Err(e),
            Ok(backstop) => Ok(ResolvedCatalogModel { version: c.version, types, backstop }),
        },
    }
}

proof fn lemma_types_error_sticks(ts: Seq<(Seq<char>, ResolvedEntryModel)>, n: int, res: Seq<(Seq<char>, ResolutionModel)>)
    requires
        0 < n <= ts.len(),
        canon_types_model(ts.take(n), res) is Err,
    ensures
        canon_types_model(ts, res) == canon_types_model(ts.take(n), res),
    decreases ts.len() - n,
{
    if n < ts.len() {
        assert(ts.take(n + 1).drop_last() =~= ts.take(n));
        lemma_types_error_sticks(ts, n + 1, res);
    } else {
        assert(ts.take(n) =~= ts);
    }
}

/// The credential floor's patterns get the same enforcement-time resolution as grants: a hole
/// that silently failed to match would open the sensitive set.
pub fn canonicalize_catalog_for_enforcement(catalog: &ResolvedCatalog, res: &NameMap<Resolution>) -> (r: Result<ResolvedCatalog, EnforcementError>)
    ensures
        match r {
            Ok(c) => enforced_catalog_model(catalog@, res@) == Ok::<ResolvedCatalogModel, EnforcementErrorModel>(c@),
            Err(e) => enforced_catalog_model(catalog@, res@) == Err::<ResolvedCatalogModel, EnforcementErrorModel>(e@),
        },
{
    let n = catalog.types.len();
    let ghost tv = catalog.types@;
    let mut types: NameMap<ResolvedEntry> = NameMap::new();
    let mut i: usize = 0;
    assert(tv.take(0) =~= Seq::<(Seq<char>, ResolvedEntryModel)>::empty());
    while i < n
        invariant
            n == tv.len(),
            tv == catalog.types@,
            names_sorted(map_keys(tv)),
            i <= n,
            canon_types_model(tv.take(i as int), res@) == Ok::<Seq<(Seq<char>, ResolvedEntryModel)>, EnforcementErrorModel>(types@),
            types@.len() == i,
            forall|k: int| 0 <= k < i ==> #[trigger] types@[k].0 == tv[k].0,
        decreases n - i,
    {
        assert(tv.take(i + 1).drop_last() =~= tv.take(i as int));
        assert(tv.take(i + 1).last() == tv[i as int]);
        let entry = catalog.types.value(i);
        match canon_all(&entry.paths, res) {
            Err(e) => {
                proof {
                    lemma_types_error_sticks(tv, i + 1, res@);
                }
                return Err(e);
            },
            Ok(paths) => {
                proof {
                    if i > 0 {
                        assert(types@.last().0 == tv[i - 1].0);
                        assert(crate::text::chars_lt(map_keys(tv)[i - 1], map_keys(tv)[i as int]));
                    }
                }
                let ghost before = types@;
                let moved = ResolvedEntry { paths, envs: copy_strings(&entry.envs), env_file_refs: copy_strings(&entry.env_file_refs) };
                types.push_last(copy_string(catalog.types.key(i)), moved);
                assert(types@ =~= before.push((tv[i as int].0, ResolvedEntryModel { paths: types@.last().1.paths, ..tv[i as int].1 })));
            },
        }
        i = i + 1;
    }
    assert(tv.take(n as int) =~= tv);
    let backstop = match canon_all(&catalog.backstop, res) {
        Err(e) => return Err(e),
        Ok(b) => b,
    };
    Ok(ResolvedCatalog { version: catalog.version, types, backstop })
}

// ---------------------------------------------------------------------------------------------
// Checks at the edge

/// Why a discovered layer is refused: it names bases, or it grants a path without provenance.
#[derive(Debug)]
pub enum DiscoveredError {
    UsesExtends,
    Unattributed(String),
}

/// The first grant (reads, then writes) whose canonical text carries no provenance.
pub open spec fn first_unattributed(grants: Seq<PatternModel>, prov: Seq<(Seq<char>, (Seq<char>, Seq<char>))>) -> Option<Seq<char>>
    decreases grants.len(),
{
    if grants.len() == 0 {
        None
    } else if map_get(prov, canonical_model(grants[0])) is None {
        Some(canonical_model(grants[0]))
    } else {
        first_unattributed(grants.drop_first(), prov)
    }
}

/// A discovered layer is machine-written and narrowly shaped: no `extends`, and every grant
/// carries provenance, so audit can always tell learned grants from authored ones.
pub fn validate_discovered(layer: &BlueprintLayer) -> (r: Result<(), DiscoveredError>)
    ensures
        match r {
            Ok(_) => layer.extends@.len() == 0 && first_unattributed(layer@.reads + layer@.writes, layer.discovery.provenance@) is None,
            Err(DiscoveredError::UsesExtends) => layer.extends@.len() > 0,
            Err(DiscoveredError::Unattributed(c)) => layer.extends@.len() == 0 && first_unattributed(
                layer@.reads + layer@.writes,
                layer.discovery.provenance@,
            ) == Some(c@),
        },
{
    if layer.extends.len() > 0 {
        return Err(DiscoveredError::UsesExtends);
    }
    let ghost grants = layer@.reads + layer@.writes;
    let ghost prov = layer.discovery.provenance@;
    let nr = layer.fs.reads.len();
    let mut i: usize = 0;
    assert(grants.skip(0) =~= grants);
    while i < nr
        invariant
            grants == layer@.reads + layer@.writes,
            prov == layer.discovery.provenance@,
            layer.extends@.len() == 0,
            nr == layer.fs.reads.len(),
            i <= nr,
            first_unattributed(grants, prov) == first_unattributed(grants.skip(i as int), prov),
        decreases nr - i,
    {
        assert(grants.skip(i as int)[0] == grants[i as int]);
        assert(grants.skip(i as int).drop_first() =~= grants.skip(i + 1));
        let c = layer.fs.reads[i].canonical();
        if !layer.discovery.provenance.contains_key(c.as_str()) {
            assert(first_unattributed(grants.skip(i as int), prov) == Some(c@));
            return Err(DiscoveredError::Unattributed(c));
        }
        i = i + 1;
    }
    let mut j: usize = 0;
    while j < layer.fs.writes.len()
        invariant
            grants == layer@.reads + layer@.writes,
            prov == layer.discovery.provenance@,
            layer.extends@.len() == 0,
            nr == layer.fs.reads.len(),
            j <= layer.fs.writes.len(),
            first_unattributed(grants, prov) == first_unattributed(grants.skip(nr + j), prov),
        decreases layer.fs.writes.len() - j,
    {
        assert(grants.skip(nr + j)[0] == grants[nr + j]);
        assert(grants.skip(nr + j).drop_first() =~= grants.skip(nr + j + 1));
        let c = layer.fs.writes[j].canonical();
        if !layer.discovery.provenance.contains_key(c.as_str()) {
            assert(first_unattributed(grants.skip(nr + j), prov) == Some(c@));
            return Err(DiscoveredError::Unattributed(c));
        }
        j = j + 1;
    }
    assert(grants.skip(nr + layer.fs.writes.len()) =~= Seq::<PatternModel>::empty());
    Ok(())
}

/// The first allowed credential type the catalog does not know (a typo would silently stay
/// blocked: fail-closed, but intent-hiding).
pub fn unknown_credential_type(allow: &Vec<String>, catalog: &Catalog) -> (r: Option<String>)
    ensures
        match r {
            Some(t) => exists|i: int| 0 <= i < allow@.len() && allow@[i]@ == t@ && !(t@ == crate::catalog::BACKSTOP@ || map_get(catalog.types@, t@) is Some)
                && forall|j: int| 0 <= j < i ==> #[trigger] allow@[j]@ == crate::catalog::BACKSTOP@ || map_get(catalog.types@, allow@[j]@) is Some,
            None => forall|j: int| 0 <= j < allow@.len() ==> #[trigger] allow@[j]@ == crate::catalog::BACKSTOP@ || map_get(catalog.types@, allow@[j]@) is Some,
        },
{
    let mut i: usize = 0;
    while i < allow.len()
        invariant
            i <= allow.len(),
            forall|j: int| 0 <= j < i ==> #[trigger] allow@[j]@ == crate::catalog::BACKSTOP@ || map_get(catalog.types@, allow@[j]@) is Some,
        decreases allow.len() - i,
    {
        if !catalog.is_known_type(allow[i].as_str()) {
            return Some(copy_string(&allow[i]));
        }
        i = i + 1;
    }
    None
}

/// An `extends` cycle: the chain from the first visit of `canon` back to it, if `canon` is
/// already being visited.
pub fn extends_cycle(visiting: &Vec<String>, canon: &str) -> (r: Option<Vec<String>>)
    ensures
        match r {
            Some(c) => exists|p: int| 0 <= p < visiting@.len() && visiting@[p]@ == canon@ && (forall|q: int| 0 <= q < p ==> #[trigger] visiting@[q]@ != canon@)
                && strs_view(c@) == strs_view(visiting@).skip(p).push(canon@),
            None => forall|q: int| 0 <= q < visiting@.len() ==> #[trigger] visiting@[q]@ != canon@,
        },
{
    let mut p: usize = 0;
    while p < visiting.len()
        invariant
            p <= visiting.len(),
            forall|q: int| 0 <= q < p ==> #[trigger] visiting@[q]@ != canon@,
        decreases visiting.len() - p,
    {
        if crate::names::str_equal(visiting[p].as_str(), canon) {
            let ghost vv = strs_view(visiting@);
            let mut out: Vec<String> = Vec::new();
            let mut k: usize = p;
            while k < visiting.len()
                invariant
                    vv == strs_view(visiting@),
                    p <= k <= visiting.len(),
                    strs_view(out@) == vv.subrange(p as int, k as int),
                decreases visiting.len() - k,
            {
                let ghost before = strs_view(out@);
                out.push(copy_string(&visiting[k]));
                assert(strs_view(out@) =~= before.push(vv[k as int]));
                k = k + 1;
                assert(strs_view(out@) =~= vv.subrange(p as int, k as int));
            }
            let ghost before = strs_view(out@);
            out.push(String::from_str(canon));
            assert(strs_view(out@) =~= vv.skip(p as int).push(canon@));
            return Some(out);
        }
        p = p + 1;
    }
    None
}

/// Write-denies the session's own policy inputs (given as absolute paths: the blueprint, its
/// discovered layer and its proposal) so a confined agent cannot shape its next run. All are
/// added, or none when one does not parse.
pub fn protect_policy_inputs(blueprint: &mut Blueprint, inputs: &Vec<String>) -> (r: Result<(), PathError>)
    ensures
        match r {
            Ok(_) => parse_all_model(strs_view(inputs@)) matches Ok(ps)
                && final(blueprint)@ == (BlueprintModel { fs: crate::blueprint::FsModel { write_subtract: old(blueprint)@.fs.write_subtract + ps, ..old(blueprint)@.fs }, ..old(blueprint)@ }),
            Err(e) => parse_all_model(strs_view(inputs@)) == Err::<Seq<PatternModel>, PathErrorModel>(e@)
                && *final(blueprint) == *old(blueprint),
        },
{
    let ghost iv = strs_view(inputs@);
    let mut parsed: Vec<PathPattern> = Vec::new();
    let mut i: usize = 0;
    assert(iv.take(0) =~= Seq::<Seq<char>>::empty());
    assert(pats_view(parsed@) =~= Seq::<PatternModel>::empty());
    while i < inputs.len()
        invariant
            iv == strs_view(inputs@),
            i <= inputs.len(),
            parse_all_model(iv.take(i as int)) == Ok::<Seq<PatternModel>, PathErrorModel>(pats_view(parsed@)),
        decreases inputs.len() - i,
    {
        assert(iv.take(i + 1).drop_last() =~= iv.take(i as int));
        assert(iv.take(i + 1).last() == iv[i as int]);
        match PathPattern::parse(inputs[i].as_str()) {
            Err(e) => {
                proof {
                    lemma_parse_error_sticks(iv, i + 1);
                }
                return Err(e);
            },
            Ok(p) => {
                let ghost before = pats_view(parsed@);
                parsed.push(p);
                assert(pats_view(parsed@) =~= before.push(p@));
            },
        }
        i = i + 1;
    }
    assert(iv.take(inputs.len() as int) =~= iv);
    append_patterns(&mut blueprint.fs.write_subtract, parsed);
    Ok(())
}

/// Each path parsed, in order; the first failure wins.
pub open spec fn parse_all_model(ss: Seq<Seq<char>>) -> Result<Seq<PatternModel>, PathErrorModel>
    decreases ss.len(),
{
    if ss.len() == 0 {
        Ok(Seq::empty())
    } else {
        match parse_all_model(ss.drop_last()) {
            Err(e) => Err(e),
            Ok(done) => match parse_model(ss.last()) {
                Err(e) => Err(e),
                Ok(p) => Ok(done.push(p)),
            },
        }
    }
}

proof fn lemma_parse_error_sticks(ss: Seq<Seq<char>>, n: int)
    requires
        0 < n <= ss.len(),
        parse_all_model(ss.take(n)) is Err,
    ensures
        parse_all_model(ss) == parse_all_model(ss.take(n)),
    decreases ss.len() - n,
{
    if n < ss.len() {
        assert(ss.take(n + 1).drop_last() =~= ss.take(n));
        lemma_parse_error_sticks(ss, n + 1);
    } else {
        assert(ss.take(n) =~= ss);
    }
}

// ---------------------------------------------------------------------------------------------
// Command-line sugar

/// `s` cut at every `sep` (so `n` separators give `n + 1` pieces, possibly empty).
pub open spec fn split_on(s: Seq<char>, sep: char) -> Seq<Seq<char>>
    decreases s.len(),
{
    if s.len() == 0 {
        seq![Seq::<char>::empty()]
    } else {
        let r = split_on(s.drop_last(), sep);
        if s.last() == sep {
            r.push(Seq::<char>::empty())
        } else {
            r.update(r.len() - 1, r.last().push(s.last()))
        }
    }
}

proof fn lemma_split_on_nonempty(s: Seq<char>, sep: char)
    ensures
        split_on(s, sep).len() >= 1,
    decreases s.len(),
{
    if s.len() > 0 {
        lemma_split_on_nonempty(s.drop_last(), sep);
    }
}

fn split_exec(s: &[char], sep: char) -> (r: Vec<Vec<char>>)
    ensures
        r@.len() == split_on(s@, sep).len(),
        forall|i: int| 0 <= i < r@.len() ==> #[trigger] r@[i]@ == split_on(s@, sep)[i],
{
    let mut pieces: Vec<Vec<char>> = Vec::new();
    pieces.push(Vec::new());
    let mut i: usize = 0;
    assert(s@.take(0) =~= Seq::<char>::empty());
    while i < s.len()
        invariant
            i <= s.len(),
            pieces.len() >= 1,
            pieces@.len() == split_on(s@.take(i as int), sep).len(),
            forall|k: int| 0 <= k < pieces@.len() ==> #[trigger] pieces@[k]@ == split_on(s@.take(i as int), sep)[k],
        decreases s.len() - i,
    {
        let c = s[i];
        let ghost prev = s@.take(i as int);
        assert(s@.take(i + 1).drop_last() =~= prev);
        assert(s@.take(i + 1).last() == c);
        if c == sep {
            pieces.push(Vec::new());
        } else {
            let mut last = pieces.pop().unwrap();
            last.push(c);
            pieces.push(last);
        }
        i = i + 1;
        assert forall|k: int| 0 <= k < pieces@.len() implies #[trigger] pieces@[k]@ == split_on(s@.take(i as int), sep)[k] by {}
    }
    assert(s@.take(s.len() as int) =~= s@);
    pieces
}

/// A port: `u16`'s `FromStr` of the trimmed text.
pub open spec fn port_of(piece: Seq<char>) -> Option<u16> {
    match crate::learn::usize_of(trimmed(piece)) {
        Some(n) => if n <= 65535 {
            Some(n as u16)
        } else {
            None
        },
        None => None,
    }
}

/// Every piece as a port, in order; the first piece that is not one is the error.
pub open spec fn ports_model(pieces: Seq<Seq<char>>) -> Result<Seq<u16>, Seq<char>>
    decreases pieces.len(),
{
    if pieces.len() == 0 {
        Ok(Seq::empty())
    } else {
        match ports_model(pieces.drop_last()) {
            Err(e) => Err(e),
            Ok(done) => match port_of(pieces.last()) {
                None => Err(pieces.last()),
                Some(p) => Ok(done.push(p)),
            },
        }
    }
}

/// Why a `--net` value was refused.
#[derive(Debug)]
pub enum NetFlagError {
    /// A piece of the port list that is not a port.
    BadPort(String),
    /// `ports:` with no port.
    NoPorts,
    /// Neither `deny` nor `ports:<p1,p2,…>`.
    Malformed(String),
}

pub enum NetFlagErrorModel {
    BadPort(Seq<char>),
    NoPorts,
    Malformed(Seq<char>),
}

impl View for NetFlagError {
    type V = NetFlagErrorModel;

    open spec fn view(&self) -> NetFlagErrorModel {
        match self {
            NetFlagError::BadPort(p) => NetFlagErrorModel::BadPort(p@),
            NetFlagError::NoPorts => NetFlagErrorModel::NoPorts,
            NetFlagError::Malformed(s) => NetFlagErrorModel::Malformed(s@),
        }
    }
}

/// `deny`, or `ports:` and a comma-separated port list.
pub open spec fn net_flag_model(s: Seq<char>) -> Result<NetModel, NetFlagErrorModel> {
    if s == "deny"@ {
        Ok(NetModel::Deny)
    } else if starts_with(s, "ports:"@) {
        match ports_model(split_on(s.skip("ports:"@.len() as int), ',')) {
            Err(p) => Err(NetFlagErrorModel::BadPort(p)),
            Ok(ps) => if ps.len() == 0 {
                Err(NetFlagErrorModel::NoPorts)
            } else {
                Ok(NetModel::Ports(ps))
            },
        }
    } else {
        Err(NetFlagErrorModel::Malformed(s))
    }
}

proof fn lemma_ports_error_sticks(ps: Seq<Seq<char>>, n: int)
    requires
        0 < n <= ps.len(),
        ports_model(ps.take(n)) is Err,
    ensures
        ports_model(ps) == ports_model(ps.take(n)),
    decreases ps.len() - n,
{
    if n < ps.len() {
        assert(ps.take(n + 1).drop_last() =~= ps.take(n));
        lemma_ports_error_sticks(ps, n + 1);
    } else {
        assert(ps.take(n) =~= ps);
    }
}

/// The `--net` flag.
pub fn parse_net(s: &str) -> (r: Result<NetPosture, NetFlagError>)
    ensures
        match r {
            Ok(n) => net_flag_model(s@) == Ok::<NetModel, NetFlagErrorModel>(n@),
            Err(e) => net_flag_model(s@) == Err::<NetModel, NetFlagErrorModel>(e@),
        },
{
    if crate::names::str_equal(s, "deny") {
        return Ok(NetPosture::Deny);
    }
    let v = chars_of(s);
    if !has_prefix(v.as_slice(), "ports:") {
        return Err(NetFlagError::Malformed(String::from_str(s)));
    }
    let n = chars_of("ports:").len();
    let list = slice_chars(v.as_slice(), n, v.len());
    assert(list@ =~= s@.skip(n as int));
    let pieces = split_exec(list.as_slice(), ',');
    let ghost pv = split_on(list@, ',');
    let mut ports: Vec<u16> = Vec::new();
    let mut i: usize = 0;
    assert(pv.take(0) =~= Seq::<Seq<char>>::empty());
    while i < pieces.len()
        invariant
            pieces@.len() == pv.len(),
            s@ != "deny"@,
            starts_with(s@, "ports:"@),
            pv == split_on(s@.skip("ports:"@.len() as int), ','),
            forall|k: int| 0 <= k < pieces@.len() ==> #[trigger] pieces@[k]@ == pv[k],
            i <= pieces.len(),
            ports_model(pv.take(i as int)) == Ok::<Seq<u16>, Seq<char>>(ports@),
            ports@.len() == i,
        decreases pieces.len() - i,
    {
        assert(pv.take(i + 1).drop_last() =~= pv.take(i as int));
        assert(pv.take(i + 1).last() == pv[i as int]);
        let t = trim(pieces[i].as_slice());
        let port = match crate::learn::parse_usize(string_of(t.as_slice()).as_str()) {
            Some(x) => if x <= 65535 {
                Some(x as u16)
            } else {
                None
            },
            None => None,
        };
        match port {
            None => {
                proof {
                    lemma_ports_error_sticks(pv, i + 1);
                }
                return Err(NetFlagError::BadPort(string_of(pieces[i].as_slice())));
            },
            Some(p) => {
                ports.push(p);
            },
        }
        i = i + 1;
    }
    assert(pv.take(pieces.len() as int) =~= pv);
    if ports.len() == 0 {
        return Err(NetFlagError::NoPorts);
    }
    Ok(NetPosture::Ports(ports))
}

/// The command-line override surface beside `--set`: grant and hole patterns, credential types
/// let through, the net posture, and extra bases.
#[derive(Clone, Debug)]
pub struct SugarFlags {
    pub extends: Vec<String>,
    pub read: Vec<String>,
    pub write: Vec<String>,
    pub subtract: Vec<String>,
    pub write_subtract: Vec<String>,
    pub allow_cred: Vec<String>,
    pub net: Option<String>,
}

/// Which flag a refused value came from.
#[derive(Clone, Copy, Debug, PartialEq, Eq, Structural)]
pub enum SugarFlag {
    Read,
    Write,
    Subtract,
    WriteSubtract,
}

#[derive(Debug)]
pub enum SugarError {
    BadPattern { flag: SugarFlag, value: String, error: PathError },
    BadNet(NetFlagError),
}

/// Each value sigil-expanded and parsed, in order; the first failure names the value.
pub open spec fn flag_patterns_model(vals: Seq<Seq<char>>, home: Seq<char>, cwd: Seq<char>) -> Result<Seq<PatternModel>, (Seq<char>, PathErrorModel)>
    decreases vals.len(),
{
    if vals.len() == 0 {
        Ok(Seq::empty())
    } else {
        match flag_patterns_model(vals.drop_last(), home, cwd) {
            Err(e) => Err(e),
            Ok(done) => match parse_model(expand_text(home, cwd, vals.last())) {
                Err(e) => Err((vals.last(), e)),
                Ok(p) => Ok(done.push(p)),
            },
        }
    }
}

proof fn lemma_flag_error_sticks(vals: Seq<Seq<char>>, n: int, home: Seq<char>, cwd: Seq<char>)
    requires
        0 < n <= vals.len(),
        flag_patterns_model(vals.take(n), home, cwd) is Err,
    ensures
        flag_patterns_model(vals, home, cwd) == flag_patterns_model(vals.take(n), home, cwd),
    decreases vals.len() - n,
{
    if n < vals.len() {
        assert(vals.take(n + 1).drop_last() =~= vals.take(n));
        lemma_flag_error_sticks(vals, n + 1, home, cwd);
    } else {
        assert(vals.take(n) =~= vals);
    }
}

fn flag_patterns(vals: &Vec<String>, flag: SugarFlag, sigils: &Sigils) -> (r: Result<Vec<PathPattern>, SugarError>)
    ensures
        match r {
            Ok(ps) => flag_patterns_model(strs_view(vals@), sigils.home_text(), sigils.cwd_text()) == Ok::<Seq<PatternModel>, (Seq<char>, PathErrorModel)>(pats_view(ps@)),
            Err(SugarError::BadPattern { flag: f, value, error }) => f == flag && flag_patterns_model(strs_view(vals@), sigils.home_text(), sigils.cwd_text())
                == Err::<Seq<PatternModel>, (Seq<char>, PathErrorModel)>((value@, error@)),
            Err(SugarError::BadNet(_)) => false,
        },
{
    let ghost vv = strs_view(vals@);
    let mut out: Vec<PathPattern> = Vec::new();
    let mut i: usize = 0;
    assert(vv.take(0) =~= Seq::<Seq<char>>::empty());
    assert(pats_view(out@) =~= Seq::<PatternModel>::empty());
    while i < vals.len()
        invariant
            vv == strs_view(vals@),
            i <= vals.len(),
            flag_patterns_model(vv.take(i as int), sigils.home_text(), sigils.cwd_text()) == Ok::<Seq<PatternModel>, (Seq<char>, PathErrorModel)>(pats_view(out@)),
        decreases vals.len() - i,
    {
        assert(vv.take(i + 1).drop_last() =~= vv.take(i as int));
        assert(vv.take(i + 1).last() == vv[i as int]);
        let expanded = sigils.expand(vals[i].as_str());
        match PathPattern::parse(expanded.as_str()) {
            Err(e) => {
                proof {
                    lemma_flag_error_sticks(vv, i + 1, sigils.home_text(), sigils.cwd_text());
                }
                return Err(SugarError::BadPattern { flag, value: copy_string(&vals[i]), error: e });
            },
            Ok(p) => {
                let ghost before = pats_view(out@);
                out.push(p);
                assert(pats_view(out@) =~= before.push(p@));
            },
        }
        i = i + 1;
    }
    assert(vv.take(vals.len() as int) =~= vv);
    Ok(out)
}

/// The sugar flags as one override layer: patterns in flag order (read, write, subtract,
/// write-subtract; the first bad value is refused), then the net posture.
pub fn sugar_layer(flags: &SugarFlags, sigils: &Sigils) -> (r: Result<BlueprintLayer, SugarError>)
    ensures
        ({
            let h = sigils.home_text();
            let c = sigils.cwd_text();
            let reads = flag_patterns_model(strs_view(flags.read@), h, c);
            let writes = flag_patterns_model(strs_view(flags.write@), h, c);
            let subtract = flag_patterns_model(strs_view(flags.subtract@), h, c);
            let wsub = flag_patterns_model(strs_view(flags.write_subtract@), h, c);
            match r {
                Ok(l) => {
                    &&& reads matches Ok(rs) && l@.reads == rs
                    &&& writes matches Ok(ws) && l@.writes == ws
                    &&& subtract matches Ok(ss) && l@.subtract == ss
                    &&& wsub matches Ok(xs) && l@.write_subtract == xs
                    &&& l@.writes_no_create.len() == 0
                    &&& l@.read_mode is None
                    &&& match flags.net {
                        Some(n) => net_flag_model(n@) matches Ok(m) && l@.net == Some(m),
                        None => l@.net is None,
                    }
                    &&& l@.exec_posture is None && l@.env is None
                    &&& l@.mcp.len() == 0
                    &&& l@.allow_credentials == strs_view(flags.allow_cred@)
                    &&& l@.auto_widen.len() == 0
                    &&& strs_view(l.extends@) == strs_view(flags.extends@)
                    &&& l.mode is None && l.rules@.len() == 0
                    &&& l.discovery.provenance@.len() == 0
                },
                Err(SugarError::BadPattern { flag, value, error }) => match flag {
                    SugarFlag::Read => reads == Err::<Seq<PatternModel>, (Seq<char>, PathErrorModel)>((value@, error@)),
                    SugarFlag::Write => reads is Ok && writes == Err::<Seq<PatternModel>, (Seq<char>, PathErrorModel)>((value@, error@)),
                    SugarFlag::Subtract => reads is Ok && writes is Ok && subtract == Err::<Seq<PatternModel>, (Seq<char>, PathErrorModel)>((value@, error@)),
                    SugarFlag::WriteSubtract => reads is Ok && writes is Ok && subtract is Ok && wsub == Err::<Seq<PatternModel>, (Seq<char>, PathErrorModel)>((value@, error@)),
                },
                Err(SugarError::BadNet(e)) => {
                    &&& reads is Ok && writes is Ok && subtract is Ok && wsub is Ok
                    &&& flags.net matches Some(n) && net_flag_model(n@) == Err::<NetModel, NetFlagErrorModel>(e@)
                },
            }
        }),
{
    let reads = match flag_patterns(&flags.read, SugarFlag::Read, sigils) {
        Err(e) => return Err(e),
        Ok(x) => x,
    };
    let writes = match flag_patterns(&flags.write, SugarFlag::Write, sigils) {
        Err(e) => return Err(e),
        Ok(x) => x,
    };
    let subtract = match flag_patterns(&flags.subtract, SugarFlag::Subtract, sigils) {
        Err(e) => return Err(e),
        Ok(x) => x,
    };
    let write_subtract = match flag_patterns(&flags.write_subtract, SugarFlag::WriteSubtract, sigils) {
        Err(e) => return Err(e),
        Ok(x) => x,
    };
    let net = match &flags.net {
        Some(n) => match parse_net(n.as_str()) {
            Err(e) => return Err(SugarError::BadNet(e)),
            Ok(p) => Some(p),
        },
        None => None,
    };
    let mut layer = BlueprintLayer::default();
    layer.extends = copy_strings(&flags.extends);
    layer.fs = FsLayer {
        read_mode: None,
        reads,
        writes,
        writes_no_create: Vec::new(),
        subtract,
        write_subtract,
    };
    layer.net = net;
    layer.allow_credentials = copy_strings(&flags.allow_cred);
    assert(layer@.writes_no_create =~= Seq::<PatternModel>::empty());
    Ok(layer)
}

/// A path-valued environment variable's deny: nothing for an empty value; otherwise the value,
/// made absolute against `cwd` (`Path::join`), parsed.
pub open spec fn path_join(base: Seq<char>, rel: Seq<char>) -> Seq<char> {
    if starts_with(rel, "/"@) {
        rel
    } else if base.len() == 0 || crate::text::ends_with(base, "/"@) {
        base + rel
    } else {
        base + "/"@ + rel
    }
}

pub fn env_file_ref_pattern(value: &str, cwd: &str) -> (r: Option<Result<PathPattern, PathError>>)
    ensures
        match r {
            None => value@.len() == 0,
            Some(p) => value@.len() > 0 && parse_result_view(p) == parse_model(path_join(cwd@, value@)),
        },
{
    let v = chars_of(value);
    if v.len() == 0 {
        return None;
    }
    let mut full = String::new();
    if has_prefix(v.as_slice(), "/") {
        push_str(&mut full, value);
    } else {
        let c = chars_of(cwd);
        push_str(&mut full, cwd);
        if !(c.len() == 0 || crate::text::has_suffix(c.as_slice(), "/")) {
            push_str(&mut full, "/");
        }
        push_str(&mut full, value);
    }
    Some(PathPattern::parse(full.as_str()))
}

} // verus!
