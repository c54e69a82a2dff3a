//! The credential-location catalog: typed, versioned data compiled in, so the pure compiler needs
//! no I/O. Raw entries carry `~`-relative paths; `Catalog::resolve` expands them against a
//! caller-supplied home into a `ResolvedCatalog`, the form the compiler takes. Resolution is
//! pure in `(catalog, home)`, keeping compilation deterministic.

use vstd::prelude::*;
use crate::names::{copy_string, copy_strings, lemma_keys_distinct, lemma_map_get_at, map_get, map_keys, names_contain, names_sorted, strs_view, NameMap};
use crate::path::{is_absolute, matches_model, parse_model, parse_result_view, covers_model, PathError, PathErrorModel, PathPattern, PatternModel};
use crate::path_set::{copy_patterns, pats_view};
use crate::text::{chars_of, push_all, push_char, push_str, starts_with, string_of};

verus! {

/// The name under which the generic backstop can be lifted via `allow-credentials`. Coarse on
/// purpose: it lifts every backstop row at once.
pub const BACKSTOP: &'static str = "backstop";

/// One credential type: where it lives on disk and which variables carry it.
#[derive(Clone, Debug, PartialEq, Eq)]
pub struct CatalogEntry {
    /// `~`-relative or absolute path patterns, denied by the confiner.
    pub paths: Vec<String>,
    /// Environment variable names, stripped by the launcher.
    pub envs: Vec<String>,
    /// Variables whose value names a file: excluding the type strips the variable and denies the
    /// file it names. A subset of `envs`.
    pub env_file_refs: Vec<String>,
}

pub struct EntryModel {
    pub paths: Seq<Seq<char>>,
    pub envs: Seq<Seq<char>>,
    pub env_file_refs: Seq<Seq<char>>,
}

impl View for CatalogEntry {
    type V = EntryModel;

    open spec fn view(&self) -> EntryModel {
        EntryModel {
            paths: strs_view(self.paths@),
            envs: strs_view(self.envs@),
            env_file_refs: strs_view(self.env_file_refs@),
        }
    }
}

/// The location-independent catch-all rows.
#[derive(Clone, Debug, PartialEq, Eq)]
pub struct BackstopEntry {
    pub paths: Vec<String>,
}

/// The raw catalog, types in name order.
#[derive(Clone, Debug, PartialEq, Eq)]
pub struct Catalog {
    pub version: u32,
    pub types: NameMap<CatalogEntry>,
    pub backstop: BackstopEntry,
}

/// The compiler-facing form: patterns parsed, `~` gone.
#[derive(Clone, Debug, PartialEq, Eq)]
pub struct ResolvedEntry {
    pub paths: Vec<PathPattern>,
    pub envs: Vec<String>,
    pub env_file_refs: Vec<String>,
}

pub struct ResolvedEntryModel {
    pub paths: Seq<PatternModel>,
    pub envs: Seq<Seq<char>>,
    pub env_file_refs: Seq<Seq<char>>,
}

impl View for ResolvedEntry {
    type V = ResolvedEntryModel;

    open spec fn view(&self) -> ResolvedEntryModel {
        ResolvedEntryModel {
            paths: pats_view(self.paths@),
            envs: strs_view(self.envs@),
            env_file_refs: strs_view(self.env_file_refs@),
        }
    }
}

impl ResolvedEntry {
    pub fn copy(&self) -> (r: ResolvedEntry)
        ensures
            r@ == self@,
    {
        ResolvedEntry {
            paths: copy_patterns(&self.paths),
            envs: copy_strings(&self.envs),
            env_file_refs: copy_strings(&self.env_file_refs),
        }
    }
}

/// Constructed where `$HOME` is known and passed into the compiler: the floor is an explicit
/// input, not ambient state.
#[derive(Clone, Debug, PartialEq, Eq)]
pub struct ResolvedCatalog {
    pub version: u32,
    pub types: NameMap<ResolvedEntry>,
    pub backstop: Vec<PathPattern>,
}

/// `home` without trailing slashes.
pub open spec fn trim_trailing_slashes(s: Seq<char>) -> Seq<char>
    decreases s.len(),
{
    if s.len() > 0 && s.last() == '/' {
        trim_trailing_slashes(s.drop_last())
    } else {
        s
    }
}

/// `~` alone is the home; `~/rest` is `rest` below the home; anything else stays.
pub open spec fn expand_home(s: Seq<char>, home: Seq<char>) -> Seq<char> {
    if s == seq!['~'] {
        home
    } else if starts_with(s, seq!['~', '/']) {
        trim_trailing_slashes(home) + seq!['/'] + s.skip(2)
    } else {
        s
    }
}

/// Each raw path expanded and parsed, in order; the first failure wins.
pub open spec fn resolve_paths(ss: Seq<Seq<char>>, home: Seq<char>) -> Result<Seq<PatternModel>, PathErrorModel>
    decreases ss.len(),
{
    if ss.len() == 0 {
        Ok(Seq::empty())
    } else {
        match resolve_paths(ss.drop_last(), home) {
            Err(e) => Err(e),
            Ok(done) => match parse_model(expand_home(ss.last(), home)) {
                Err(e) => Err(e),
                Ok(p) => Ok(done.push(p)),
            },
        }
    }
}

/// Every path of every type, in type order, then the backstop rows.
pub open spec fn all_raw_paths(types: Seq<(Seq<char>, EntryModel)>) -> Seq<Seq<char>>
    decreases types.len(),
{
    if types.len() == 0 {
        Seq::empty()
    } else {
        all_raw_paths(types.drop_last()) + types.last().1.paths
    }
}

pub(crate) fn trim_slashes(s: &[char]) -> (r: Vec<char>)
    ensures
        r@ == trim_trailing_slashes(s@),
{
    let mut n: usize = s.len();
    assert(s@.take(s.len() as int) =~= s@);
    while n > 0 && s[n - 1] == '/'
        invariant
            n <= s.len(),
            trim_trailing_slashes(s@) == trim_trailing_slashes(s@.take(n as int)),
        decreases n,
    {
        assert(s@.take(n as int).drop_last() =~= s@.take(n - 1));
        n = n - 1;
    }
    crate::text::slice_chars(s, 0, n)
}

/// Expands `~` against `home`.
pub fn expand_home_exec(s: &str, home: &str) -> (r: String)
    ensures
        r@ == expand_home(s@, home@),
{
    let v = chars_of(s);
    if v.len() == 1 && v[0] == '~' {
        assert(s@ =~= seq!['~']);
        return String::from_str(home);
    }
    if v.len() >= 2 && v[0] == '~' && v[1] == '/' {
        assert(s@.take(2) =~= seq!['~', '/']);
        let h = chars_of(home);
        let t = trim_slashes(h.as_slice());
        let mut out = string_of(t.as_slice());
        push_char(&mut out, '/');
        let rest = crate::text::slice_chars(v.as_slice(), 2, v.len());
        push_all(&mut out, rest.as_slice());
        assert(out@ =~= trim_trailing_slashes(home@) + seq!['/'] + s@.skip(2));
        return out;
    }
    proof {
        if s@ == seq!['~'] {
            assert(v@.len() == 1);
        }
        if starts_with(s@, seq!['~', '/']) {
            assert(s@.take(2)[0] == '~' && s@.take(2)[1] == '/');
        }
    }
    String::from_str(s)
}

fn resolve_list(raw: &Vec<String>, home: &str) -> (r: Result<Vec<PathPattern>, PathError>)
    ensures
        match r {
            Ok(v) => resolve_paths(strs_view(raw@), home@) == Ok::<Seq<PatternModel>, PathErrorModel>(pats_view(v@)),
            Err(e) => resolve_paths(strs_view(raw@), home@) == Err::<Seq<PatternModel>, PathErrorModel>(e@),
        },
{
    let ghost rv = strs_view(raw@);
    let mut out: Vec<PathPattern> = Vec::new();
    let mut i: usize = 0;
    assert(rv.take(0) =~= Seq::<Seq<char>>::empty());
    assert(pats_view(out@) =~= Seq::<PatternModel>::empty());
    while i < raw.len()
        invariant
            rv == strs_view(raw@),
            i <= raw.len(),
            resolve_paths(rv.take(i as int), home@) == Ok::<Seq<PatternModel>, PathErrorModel>(pats_view(out@)),
        decreases raw.len() - i,
    {
        let ghost t = rv.take(i + 1);
        assert(t.drop_last() =~= rv.take(i as int));
        assert(t.last() == raw@[i as int]@);
        let expanded = expand_home_exec(raw[i].as_str(), home);
        match PathPattern::parse(expanded.as_str()) {
            Ok(p) => {
                let ghost before = pats_view(out@);
                out.push(p);
                assert(pats_view(out@) =~= before.push(p@));
            },
            Err(e) => {
                proof {
                    lemma_resolve_err_sticks(rv, home@, i + 1, raw.len() as int, e@);
                    assert(rv.take(raw.len() as int) =~= rv);
                }
                return Err(e);
            },
        }
        i = i + 1;
    }
    assert(rv.take(raw.len() as int) =~= rv);
    Ok(out)
}

proof fn lemma_resolve_err_sticks(ss: Seq<Seq<char>>, home: Seq<char>, i: int, j: int, e: PathErrorModel)
    requires
        0 <= i <= j <= ss.len(),
        resolve_paths(ss.take(i), home) == Err::<Seq<PatternModel>, PathErrorModel>(e),
    ensures
        resolve_paths(ss.take(j), home) == Err::<Seq<PatternModel>, PathErrorModel>(e),
    decreases j - i,
{
    if j > i {
        lemma_resolve_err_sticks(ss, home, i, j - 1, e);
        assert(ss.take(j).drop_last() =~= ss.take(j - 1));
    }
}

/// What `resolve` yields: every type with its paths resolved, the backstop resolved; or the first
/// failure, taking the types in name order and then the backstop.
pub open spec fn resolved_of(r: Result<ResolvedCatalogModel, PathErrorModel>, c: CatalogModel, home: Seq<char>) -> bool {
    match resolve_paths(all_raw_paths(c.types) + c.backstop, home) {
        Err(e) => r == Err::<ResolvedCatalogModel, PathErrorModel>(e),
        Ok(_) => match r {
            Err(_) => false,
            Ok(m) => {
                &&& m.version == c.version
                &&& map_keys(m.types) == map_keys(c.types)
                &&& forall|i: int| 0 <= i < c.types.len() ==> {
                    &&& resolve_paths(c.types[i].1.paths, home) == Ok::<Seq<PatternModel>, PathErrorModel>(#[trigger] m.types[i].1.paths)
                    &&& m.types[i].1.envs == c.types[i].1.envs
                    &&& m.types[i].1.env_file_refs == c.types[i].1.env_file_refs
                }
                &&& resolve_paths(c.backstop, home) == Ok::<Seq<PatternModel>, PathErrorModel>(m.backstop)
            },
        },
    }
}

pub struct CatalogModel {
    pub version: u32,
    pub types: Seq<(Seq<char>, EntryModel)>,
    pub backstop: Seq<Seq<char>>,
}

impl View for Catalog {
    type V = CatalogModel;

    open spec fn view(&self) -> CatalogModel {
        CatalogModel { version: self.version, types: self.types@, backstop: strs_view(self.backstop.paths@) }
    }
}

pub struct ResolvedCatalogModel {
    pub version: u32,
    pub types: Seq<(Seq<char>, ResolvedEntryModel)>,
    pub backstop: Seq<PatternModel>,
}

impl View for ResolvedCatalog {
    type V = ResolvedCatalogModel;

    open spec fn view(&self) -> ResolvedCatalogModel {
        ResolvedCatalogModel { version: self.version, types: self.types@, backstop: pats_view(self.backstop@) }
    }
}

pub open spec fn resolve_result_view(r: Result<ResolvedCatalog, PathError>) -> Result<ResolvedCatalogModel, PathErrorModel> {
    match r {
        Ok(c) => Ok(c@),
        Err(e) => Err(e@),
    }
}

/// Splitting the flattened list: resolving a concatenation fails where its first failing half
/// fails.
proof fn lemma_resolve_concat(a: Seq<Seq<char>>, b: Seq<Seq<char>>, home: Seq<char>)
    ensures
        resolve_paths(a + b, home) == match resolve_paths(a, home) {
            Err(e) => Err(e),
            Ok(x) => match resolve_paths(b, home) {
                Err(e) => Err(e),
                Ok(y) => Ok::<Seq<PatternModel>, PathErrorModel>(x + y),
            },
        },
    decreases b.len(),
{
    if b.len() == 0 {
        assert(a + b =~= a);
        if let Ok(x) = resolve_paths(a, home) {
            assert(x + Seq::<PatternModel>::empty() =~= x);
        }
    } else {
        lemma_resolve_concat(a, b.drop_last(), home);
        assert((a + b).drop_last() =~= a + b.drop_last());
        assert((a + b).last() == b.last());
        if let Ok(x) = resolve_paths(a, home) {
            if let Ok(y) = resolve_paths(b.drop_last(), home) {
                if let Ok(p) = parse_model(expand_home(b.last(), home)) {
                    assert((x + y).push(p) =~= x + y.push(p));
                }
            }
        }
    }
}

impl Catalog {
    /// The names of the catalog's types, in name order.
    pub fn type_names(&self) -> (r: Vec<String>)
        ensures
            strs_view(r@) == map_keys(self.types@),
    {
        let n = self.types.len();
        let mut out: Vec<String> = Vec::new();
        let mut i: usize = 0;
        while i < n
            invariant
                n == self.types@.len(),
                i <= n,
                strs_view(out@) == map_keys(self.types@).take(i as int),
            decreases n - i,
        {
            let ghost before = strs_view(out@);
            let k = copy_string(self.types.key(i));
            out.push(k);
            assert(strs_view(out@) =~= before.push(k@));
            assert(strs_view(out@) =~= map_keys(self.types@).take(i + 1));
            i = i + 1;
        }
        assert(map_keys(self.types@).take(n as int) =~= map_keys(self.types@));
        out
    }

    /// Is `name` a type of this catalog, or the backstop?
    pub fn is_known_type(&self, name: &str) -> (r: bool)
        ensures
            r == (name@ == BACKSTOP@ || map_get(self.types@, name@) is Some),
    {
        crate::names::str_equal(name, BACKSTOP) || self.types.contains_key(name)
    }

    /// Expand `~` against `home` and parse every pattern; fails loud on an unparsable pattern (a
    /// hole that silently failed to match would open the floor).
    pub fn resolve(&self, home: &str) -> (r: Result<ResolvedCatalog, PathError>)
        ensures
            resolved_of(resolve_result_view(r), self@, home@),
    {
        let n = self.types.len();
        let ghost tv = self.types@;
        let mut types: NameMap<ResolvedEntry> = NameMap::new();
        let mut i: usize = 0;
        assert(tv.take(0) =~= Seq::<(Seq<char>, EntryModel)>::empty());
        while i < n
            invariant
                n == tv.len(),
                tv == self.types@,
                names_sorted(map_keys(tv)),
                i <= n,
                resolve_paths(all_raw_paths(tv.take(i as int)), home@) is Ok,
                types@.len() == i,
                map_keys(types@) == map_keys(tv).take(i as int),
                forall|j: int| 0 <= j < i ==> {
                    &&& resolve_paths(tv[j].1.paths, home@) == Ok::<Seq<PatternModel>, PathErrorModel>(#[trigger] types@[j].1.paths)
                    &&& types@[j].1.envs == tv[j].1.envs
                    &&& types@[j].1.env_file_refs == tv[j].1.env_file_refs
                },
            decreases n - i,
        {
            let ghost t = tv.take(i + 1);
            assert(t.drop_last() =~= tv.take(i as int));
            assert(t.last() == tv[i as int]);
            proof {
                lemma_resolve_concat(all_raw_paths(tv.take(i as int)), tv[i as int].1.paths, home@);
            }
            let entry = self.types.value(i);
            let paths = match resolve_list(&entry.paths, home) {
                Ok(p) => p,
                Err(e) => {
                    proof {
                        lemma_raw_prefix_err(tv, i as int, home@, self@.backstop);
                    }
                    return Err(e);
                },
            };
            let ghost before = types@;
            proof {
                if i > 0 {
                    assert(map_keys(types@)[i - 1] == map_keys(tv)[i - 1]);
                    assert(crate::text::chars_lt(map_keys(tv)[i - 1], map_keys(tv)[i as int]));
                }
            }
            types.push_last(copy_string(self.types.key(i)), ResolvedEntry {
                paths,
                envs: copy_strings(&entry.envs),
                env_file_refs: copy_strings(&entry.env_file_refs),
            });
            assert(map_keys(types@) =~= map_keys(tv).take(i + 1));
            i = i + 1;
        }
        assert(tv.take(n as int) =~= tv);
        assert(map_keys(tv).take(n as int) =~= map_keys(tv));
        proof {
            lemma_resolve_concat(all_raw_paths(tv), self@.backstop, home@);
        }
        let backstop = match resolve_list(&self.backstop.paths, home) {
            Ok(p) => p,
            Err(e) => {
                return Err(e);
            },
        };
        Ok(ResolvedCatalog { version: self.version, types, backstop })
    }
}

proof fn lemma_raw_prefix_err(tv: Seq<(Seq<char>, EntryModel)>, i: int, home: Seq<char>, backstop: Seq<Seq<char>>)
    requires
        0 <= i < tv.len(),
        resolve_paths(all_raw_paths(tv.take(i)), home) is Ok,
        resolve_paths(tv[i].1.paths, home) is Err,
    ensures
        resolve_paths(all_raw_paths(tv) + backstop, home) == resolve_paths(tv[i].1.paths, home),
    decreases tv.len() - i,
{
    lemma_all_raw_split(tv, i + 1);
    let t = tv.take(i + 1);
    assert(t.drop_last() =~= tv.take(i));
    assert(t.last() == tv[i]);
    lemma_resolve_concat(all_raw_paths(tv.take(i)), tv[i].1.paths, home);
    lemma_resolve_concat(all_raw_paths(t), all_raw_paths(tv.skip(i + 1)), home);
    lemma_resolve_concat(all_raw_paths(tv), backstop, home);
}

proof fn lemma_all_raw_split(tv: Seq<(Seq<char>, EntryModel)>, k: int)
    requires
        0 <= k <= tv.len(),
    ensures
        all_raw_paths(tv) == all_raw_paths(tv.take(k)) + all_raw_paths(tv.skip(k)),
    decreases tv.len(),
{
    if tv.len() == k {
        assert(tv.take(k) =~= tv);
        assert(tv.skip(k) =~= Seq::<(Seq<char>, EntryModel)>::empty());
        assert(all_raw_paths(tv) + Seq::<Seq<char>>::empty() =~= all_raw_paths(tv));
    } else {
        lemma_all_raw_split(tv.drop_last(), k);
        assert(tv.drop_last().take(k) =~= tv.take(k));
        assert(tv.skip(k).drop_last() =~= tv.drop_last().skip(k));
        assert(tv.skip(k).last() == tv.last());
        assert(all_raw_paths(tv.take(k)) + all_raw_paths(tv.skip(k)) =~= all_raw_paths(tv.take(k))
            + all_raw_paths(tv.drop_last().skip(k)) + tv.last().1.paths);
    }
}


// ---------------------------------------------------------------------------------------------
// The resolved catalog

/// The paths of every type `allow` does not name, in type order.
pub open spec fn denied_typed(types: Seq<(Seq<char>, ResolvedEntryModel)>, allow: Seq<Seq<char>>) -> Seq<PatternModel>
    decreases types.len(),
{
    if types.len() == 0 {
        Seq::empty()
    } else if allow.contains(types.last().0) {
        denied_typed(types.drop_last(), allow)
    } else {
        denied_typed(types.drop_last(), allow) + types.last().1.paths
    }
}

/// The confiner-deny patterns: every type not excluded, then the backstop unless `allow` names
/// it. The only un-deny that exists is this typed exclusion.
pub open spec fn denied_of(c: ResolvedCatalogModel, allow: Seq<Seq<char>>) -> Seq<PatternModel> {
    denied_typed(c.types, allow) + if allow.contains(BACKSTOP@) {
        Seq::<PatternModel>::empty()
    } else {
        c.backstop
    }
}

/// The types `allow` does not name, in order.
pub open spec fn enforced_of(types: Seq<(Seq<char>, ResolvedEntryModel)>, allow: Seq<Seq<char>>) -> Seq<(Seq<char>, ResolvedEntryModel)>
    decreases types.len(),
{
    if types.len() == 0 {
        Seq::empty()
    } else if allow.contains(types.last().0) {
        enforced_of(types.drop_last(), allow)
    } else {
        enforced_of(types.drop_last(), allow).push(types.last())
    }
}

/// The paths of a list of types, in order.
pub open spec fn typed_paths(types: Seq<(Seq<char>, ResolvedEntryModel)>) -> Seq<PatternModel>
    decreases types.len(),
{
    if types.len() == 0 {
        Seq::empty()
    } else {
        typed_paths(types.drop_last()) + types.last().1.paths
    }
}

proof fn lemma_denied_typed_is_enforced_paths(types: Seq<(Seq<char>, ResolvedEntryModel)>, allow: Seq<Seq<char>>)
    ensures
        denied_typed(types, allow) == typed_paths(enforced_of(types, allow)),
    decreases types.len(),
{
    if types.len() > 0 {
        lemma_denied_typed_is_enforced_paths(types.drop_last(), allow);
        let e0 = enforced_of(types.drop_last(), allow);
        if !allow.contains(types.last().0) {
            let e = e0.push(types.last());
            assert(e.drop_last() =~= e0);
        }
    }
}

/// The confiner-deny patterns are exactly the paths of the types still enforced, in order, then
/// the backstop unless it is excluded by name.
pub proof fn denied_paths_are_the_enforced_types_paths(c: ResolvedCatalogModel, allow: Seq<Seq<char>>)
    ensures
        denied_of(c, allow) == typed_paths(enforced_of(c.types, allow)) + if allow.contains(BACKSTOP@) {
            Seq::<PatternModel>::empty()
        } else {
            c.backstop
        },
{
    lemma_denied_typed_is_enforced_paths(c.types, allow);
}

proof fn lemma_denied_typed_shrinks(types: Seq<(Seq<char>, ResolvedEntryModel)>, allow: Seq<Seq<char>>, more: Seq<Seq<char>>)
    requires
        forall|n: Seq<char>| #[trigger] allow.contains(n) ==> more.contains(n),
    ensures
        forall|p: PatternModel| #[trigger] denied_typed(types, more).contains(p) ==> denied_typed(types, allow).contains(p),
    decreases types.len(),
{
    if types.len() > 0 {
        let init = types.drop_last();
        lemma_denied_typed_shrinks(init, allow, more);
        let a0 = denied_typed(init, allow);
        let m0 = denied_typed(init, more);
        let ps = types.last().1.paths;
        assert forall|p: PatternModel| #[trigger] denied_typed(types, more).contains(p) implies denied_typed(types, allow).contains(p) by {
            let dm = denied_typed(types, more);
            let da = denied_typed(types, allow);
            let j = choose|j: int| 0 <= j < dm.len() && dm[j] == p;
            if j < m0.len() {
                assert(m0[j] == p);
                assert(m0.contains(p));
                let k = choose|k: int| 0 <= k < a0.len() && a0[k] == p;
                if !allow.contains(types.last().0) {
                    assert(da[k] == a0[k]);
                }
            } else {
                assert(!more.contains(types.last().0));
                assert(!allow.contains(types.last().0));
                assert(dm[j] == ps[j - m0.len()]);
                assert(da[a0.len() + j - m0.len()] == p);
            }
        }
    }
}

/// Excluding more types never adds a denied pattern: the deny set shrinks as the exclusion list
/// grows.
pub proof fn denied_paths_shrink_as_exclusions_grow(c: ResolvedCatalogModel, allow: Seq<Seq<char>>, more: Seq<Seq<char>>)
    requires
        forall|n: Seq<char>| #[trigger] allow.contains(n) ==> more.contains(n),
    ensures
        forall|p: PatternModel| #[trigger] denied_of(c, more).contains(p) ==> denied_of(c, allow).contains(p),
{
    lemma_denied_typed_shrinks(c.types, allow, more);
    let ta = denied_typed(c.types, allow);
    let tm = denied_typed(c.types, more);
    let ba = if allow.contains(BACKSTOP@) { Seq::<PatternModel>::empty() } else { c.backstop };
    let bm = if more.contains(BACKSTOP@) { Seq::<PatternModel>::empty() } else { c.backstop };
    assert forall|p: PatternModel| #[trigger] denied_of(c, more).contains(p) implies denied_of(c, allow).contains(p) by {
        let dm = tm + bm;
        let da = ta + ba;
        let j = choose|j: int| 0 <= j < dm.len() && dm[j] == p;
        if j < tm.len() {
            assert(tm[j] == p);
            assert(tm.contains(p));
            let k = choose|k: int| 0 <= k < ta.len() && ta[k] == p;
            assert(da[k] == p);
        } else {
            assert(!more.contains(BACKSTOP@));
            assert(!allow.contains(BACKSTOP@));
            assert(da[ta.len() + j - tm.len()] == p);
        }
    }
}

/// A floor pattern catches a candidate grant when they are equal, when either covers the other,
/// or when the floor pattern matches the candidate's own path.
pub open spec fn floor_hits(floor: PatternModel, cand: PatternModel) -> bool {
    floor == cand || covers_model(floor, cand) || covers_model(cand, floor) || (!cand.any_depth
        && matches_model(floor, true, cand.base))
}

pub open spec fn any_hit(paths: Seq<PatternModel>, cand: PatternModel) -> bool {
    exists|j: int| 0 <= j < paths.len() && floor_hits(#[trigger] paths[j], cand)
}

/// The first type, in name order, that `allow` does not name and whose paths catch `cand`.
pub open spec fn first_floor_type(types: Seq<(Seq<char>, ResolvedEntryModel)>, allow: Seq<Seq<char>>, cand: PatternModel) -> Option<Seq<char>>
    decreases types.len(),
{
    if types.len() == 0 {
        None
    } else if !allow.contains(types[0].0) && any_hit(types[0].1.paths, cand) {
        Some(types[0].0)
    } else {
        first_floor_type(types.drop_first(), allow, cand)
    }
}

/// Some excluded type's paths catch `cand`: inside an excluded type's own scope the backstop is
/// lifted too.
pub open spec fn in_excluded_scope(types: Seq<(Seq<char>, ResolvedEntryModel)>, allow: Seq<Seq<char>>, cand: PatternModel) -> bool {
    exists|i: int| 0 <= i < types.len() && allow.contains(#[trigger] types[i].0) && any_hit(types[i].1.paths, cand)
}

/// Which type floors the candidate grant, or the backstop, or none.
pub open spec fn floor_type_model(c: ResolvedCatalogModel, allow: Seq<Seq<char>>, cand: PatternModel) -> Option<Seq<char>> {
    match first_floor_type(c.types, allow, cand) {
        Some(n) => Some(n),
        None => if !in_excluded_scope(c.types, allow, cand) && !allow.contains(BACKSTOP@) && any_hit(c.backstop, cand) {
            Some(BACKSTOP@)
        } else {
            None
        },
    }
}

fn hits(floor: &PathPattern, cand: &PathPattern) -> (r: bool)
    ensures
        r == floor_hits(floor@, cand@),
{
    floor.same_as(cand) || floor.covers(cand) || cand.covers(floor) || (!cand.is_any_depth()
        && floor.matches_components(true, cand.base_comps()))
}

fn any_hits(paths: &Vec<PathPattern>, cand: &PathPattern) -> (r: bool)
    ensures
        r == any_hit(pats_view(paths@), cand@),
{
    let ghost pv = pats_view(paths@);
    let mut i: usize = 0;
    while i < paths.len()
        invariant
            pv == pats_view(paths@),
            i <= paths.len(),
            forall|j: int| 0 <= j < i ==> !floor_hits(#[trigger] pv[j], cand@),
        decreases paths.len() - i,
    {
        if hits(&paths[i], cand) {
            assert(floor_hits(pv[i as int], cand@));
            return true;
        }
        i = i + 1;
    }
    false
}

impl ResolvedCatalog {
    /// The built-in catalog resolved for one home: the standard constructor.
    pub fn builtin_for_home(home: &str) -> (r: Result<ResolvedCatalog, PathError>)
        ensures
            exists|c: CatalogModel| is_builtin(c) && resolved_of(resolve_result_view(r), c, home@),
    {
        let c = Catalog::builtin();
        let r = c.resolve(home);
        assert(resolved_of(resolve_result_view(r), c@, home@));
        r
    }

    /// A catalog with no entries, i.e. no credential floor, so tests can isolate behavior that
    /// does not involve the catalog.
    pub fn empty_no_floor() -> (r: ResolvedCatalog)
        ensures
            r@.version == 0,
            r@.types.len() == 0,
            r@.backstop.len() == 0,
    {
        ResolvedCatalog { version: 0, types: NameMap::new(), backstop: Vec::new() }
    }

    /// Confiner-deny patterns for every type not excluded, plus the backstop unless `allow` names
    /// it.
    pub fn denied_paths(&self, allow: &Vec<String>) -> (r: Vec<PathPattern>)
        ensures
            pats_view(r@) == denied_of(self@, strs_view(allow@)),
    {
        let n = self.types.len();
        let ghost tv = self.types@;
        let ghost av = strs_view(allow@);
        let mut out: Vec<PathPattern> = Vec::new();
        let mut i: usize = 0;
        assert(tv.take(0) =~= Seq::<(Seq<char>, ResolvedEntryModel)>::empty());
        assert(pats_view(out@) =~= Seq::<PatternModel>::empty());
        while i < n
            invariant
                n == tv.len(),
                tv == self.types@,
                av == strs_view(allow@),
                i <= n,
                pats_view(out@) == denied_typed(tv.take(i as int), av),
            decreases n - i,
        {
            let ghost t = tv.take(i + 1);
            assert(t.drop_last() =~= tv.take(i as int));
            assert(t.last() == tv[i as int]);
            if !names_contain(allow, self.types.key(i).as_str()) {
                let mut more = copy_patterns(&self.types.value(i).paths);
                let ghost before = pats_view(out@);
                let ghost m = pats_view(more@);
                out.append(&mut more);
                assert(pats_view(out@) =~= before + m);
            }
            i = i + 1;
        }
        assert(tv.take(n as int) =~= tv);
        if !names_contain(allow, BACKSTOP) {
            let mut more = copy_patterns(&self.backstop);
            let ghost before = pats_view(out@);
            let ghost m = pats_view(more@);
            out.append(&mut more);
            assert(pats_view(out@) =~= before + m);
        } else {
            assert(pats_view(out@) =~= pats_view(out@) + Seq::<PatternModel>::empty());
        }
        out
    }

    /// The types still enforced after exclusions, in name order: what the report itemizes.
    pub fn enforced_types(&self, allow: &Vec<String>) -> (r: Vec<(String, ResolvedEntry)>)
        ensures
            r@.map_values(|e: (String, ResolvedEntry)| (e.0@, e.1@)) == enforced_of(self@.types, strs_view(allow@)),
    {
        let n = self.types.len();
        let ghost tv = self.types@;
        let ghost av = strs_view(allow@);
        let mut out: Vec<(String, ResolvedEntry)> = Vec::new();
        let mut i: usize = 0;
        assert(tv.take(0) =~= Seq::<(Seq<char>, ResolvedEntryModel)>::empty());
        assert(out@.map_values(|e: (String, ResolvedEntry)| (e.0@, e.1@)) =~= Seq::<(Seq<char>, ResolvedEntryModel)>::empty());
        while i < n
            invariant
                n == tv.len(),
                tv == self.types@,
                av == strs_view(allow@),
                i <= n,
                out@.map_values(|e: (String, ResolvedEntry)| (e.0@, e.1@)) == enforced_of(tv.take(i as int), av),
            decreases n - i,
        {
            let ghost t = tv.take(i + 1);
            assert(t.drop_last() =~= tv.take(i as int));
            assert(t.last() == tv[i as int]);
            if !names_contain(allow, self.types.key(i).as_str()) {
                let k = copy_string(self.types.key(i));
                let v = self.types.value(i).copy();
                let ghost before = out@.map_values(|e: (String, ResolvedEntry)| (e.0@, e.1@));
                out.push((k, v));
                assert(out@.map_values(|e: (String, ResolvedEntry)| (e.0@, e.1@)) =~= before.push((k@, v@)));
            }
            i = i + 1;
        }
        assert(tv.take(n as int) =~= tv);
        out
    }

    /// Which type floors this candidate grant (or the backstop), for the operator-channel "why".
    /// The backstop is location-independent, so a credential shape is withheld wherever it was
    /// observed; inside an excluded type's scope it is lifted, mirroring enforcement.
    pub fn floor_type_of(&self, allow: &Vec<String>, candidate: &PathPattern) -> (r: Option<String>)
        ensures
            match r {
                Some(s) => floor_type_model(self@, strs_view(allow@), candidate@) == Some(s@),
                None => floor_type_model(self@, strs_view(allow@), candidate@) is None,
            },
    {
        let n = self.types.len();
        let ghost tv = self.types@;
        let ghost av = strs_view(allow@);
        let mut i: usize = 0;
        assert(tv.skip(0) =~= tv);
        while i < n
            invariant
                n == tv.len(),
                tv == self.types@,
                av == strs_view(allow@),
                i <= n,
                first_floor_type(tv, av, candidate@) == first_floor_type(tv.skip(i as int), av, candidate@),
            decreases n - i,
        {
            assert(tv.skip(i as int)[0] == tv[i as int]);
            assert(tv.skip(i as int).drop_first() =~= tv.skip(i + 1));
            if !names_contain(allow, self.types.key(i).as_str()) && any_hits(&self.types.value(i).paths, candidate) {
                return Some(copy_string(self.types.key(i)));
            }
            i = i + 1;
        }
        let mut in_excluded = false;
        let mut j: usize = 0;
        while j < n
            invariant
                n == tv.len(),
                tv == self.types@,
                av == strs_view(allow@),
                j <= n,
                in_excluded == exists|m: int| 0 <= m < j && av.contains(#[trigger] tv[m].0) && any_hit(tv[m].1.paths, candidate@),
            decreases n - j,
        {
            if names_contain(allow, self.types.key(j).as_str()) && any_hits(&self.types.value(j).paths, candidate) {
                in_excluded = true;
            }
            j = j + 1;
        }
        if !in_excluded && !names_contain(allow, BACKSTOP) && any_hits(&self.backstop, candidate) {
            return Some(String::from_str(BACKSTOP));
        }
        None
    }
}


// ---------------------------------------------------------------------------------------------
// The built-in catalog

/// Strings from string slices.
fn owned(items: &[&str]) -> (r: Vec<String>)
    ensures
        strs_view(r@) == items@.map_values(|s: &str| s@),
{
    let mut out: Vec<String> = Vec::new();
    let mut i: usize = 0;
    while i < items.len()
        invariant
            i <= items.len(),
            strs_view(out@) == items@.map_values(|s: &str| s@).take(i as int),
        decreases items.len() - i,
    {
        let ghost before = strs_view(out@);
        out.push(String::from_str(items[i]));
        assert(strs_view(out@) =~= before.push(items@[i as int]@));
        i = i + 1;
        assert(strs_view(out@) =~= items@.map_values(|s: &str| s@).take(i as int));
    }
    assert(items@.map_values(|s: &str| s@).take(items.len() as int) =~= items@.map_values(|s: &str| s@));
    out
}

fn catalog_entry(paths: &[&str], envs: &[&str], env_file_refs: &[&str]) -> (r: CatalogEntry)
    ensures
        r@ == (EntryModel {
            paths: paths@.map_values(|s: &str| s@),
            envs: envs@.map_values(|s: &str| s@),
            env_file_refs: env_file_refs@.map_values(|s: &str| s@),
        }),
{
    CatalogEntry { paths: owned(paths), envs: owned(envs), env_file_refs: owned(env_file_refs) }
}

/// The built-in entry for a type name: where the credential lives and which variables carry it.
pub open spec fn builtin_entry(name: Seq<char>) -> Option<EntryModel> {
    if name == "system"@ {
        Some(EntryModel { paths: seq!["/etc/shadow"@, "/etc/sudoers"@], envs: seq![], env_file_refs: seq![] })
    } else if name == "ssh"@ {
        Some(EntryModel { paths: seq!["~/.ssh/**"@], envs: seq![], env_file_refs: seq![] })
    } else if name == "slack"@ {
        Some(EntryModel { paths: seq![], envs: seq!["SLACK_BOT_TOKEN"@, "SLACK_USER_TOKEN"@], env_file_refs: seq![] })
    } else if name == "secrets-mount"@ {
        Some(EntryModel { paths: seq!["/run/secrets/**"@], envs: seq![], env_file_refs: seq![] })
    } else if name == "pypi"@ {
        Some(EntryModel { paths: seq!["~/.pypirc"@], envs: seq!["TWINE_PASSWORD"@], env_file_refs: seq![] })
    } else if name == "openai"@ {
        Some(EntryModel { paths: seq![], envs: seq!["OPENAI_API_KEY"@], env_file_refs: seq![] })
    } else if name == "npm"@ {
        Some(EntryModel { paths: seq!["~/.npmrc"@], envs: seq!["NPM_TOKEN"@], env_file_refs: seq![] })
    } else if name == "netrc"@ {
        Some(EntryModel { paths: seq!["~/.netrc"@], envs: seq![], env_file_refs: seq![] })
    } else if name == "kube"@ {
        Some(EntryModel { paths: seq!["~/.kube/**"@], envs: seq!["KUBECONFIG"@], env_file_refs: seq!["KUBECONFIG"@] })
    } else if name == "keychain"@ {
        Some(EntryModel { paths: seq!["~/Library/Keychains/**"@, "/Library/Keychains/**"@], envs: seq![], env_file_refs: seq![] })
    } else if name == "gnupg"@ {
        Some(EntryModel { paths: seq!["~/.gnupg/**"@], envs: seq![], env_file_refs: seq![] })
    } else if name == "github"@ {
        Some(EntryModel { paths: seq!["~/.config/gh/**"@], envs: seq!["GITHUB_TOKEN"@, "GH_TOKEN"@], env_file_refs: seq![] })
    } else if name == "git-credentials"@ {
        Some(EntryModel { paths: seq!["~/.git-credentials"@], envs: seq![], env_file_refs: seq![] })
    } else if name == "gemini"@ {
        Some(EntryModel { paths: seq!["~/.gemini/**"@], envs: seq!["GEMINI_API_KEY"@, "GOOGLE_API_KEY"@], env_file_refs: seq![] })
    } else if name == "gcp"@ {
        Some(EntryModel { paths: seq!["~/.config/gcloud/**"@], envs: seq!["GOOGLE_APPLICATION_CREDENTIALS"@], env_file_refs: seq!["GOOGLE_APPLICATION_CREDENTIALS"@] })
    } else if name == "dotenv"@ {
        Some(EntryModel { paths: seq!["**/.env"@, "**/.env.local"@, "**/.env.production"@], envs: seq![], env_file_refs: seq![] })
    } else if name == "docker"@ {
        Some(EntryModel { paths: seq!["~/.docker/**"@], envs: seq!["DOCKER_AUTH_CONFIG"@], env_file_refs: seq![] })
    } else if name == "cursor"@ {
        Some(EntryModel { paths: seq!["~/.cursor/**"@], envs: seq![], env_file_refs: seq![] })
    } else if name == "codex"@ {
        Some(EntryModel { paths: seq!["~/.codex/**"@], envs: seq![], env_file_refs: seq![] })
    } else if name == "azure"@ {
        Some(EntryModel { paths: seq!["~/.azure/**"@], envs: seq!["AZURE_CLIENT_SECRET"@], env_file_refs: seq![] })
    } else if name == "aws"@ {
        Some(EntryModel { paths: seq!["~/.aws/**"@], envs: seq!["AWS_ACCESS_KEY_ID"@, "AWS_SECRET_ACCESS_KEY"@, "AWS_SESSION_TOKEN"@, "AWS_SHARED_CREDENTIALS_FILE"@, "AWS_CONFIG_FILE"@], env_file_refs: seq!["AWS_SHARED_CREDENTIALS_FILE"@, "AWS_CONFIG_FILE"@] })
    } else if name == "anthropic"@ {
        Some(EntryModel { paths: seq![], envs: seq!["ANTHROPIC_API_KEY"@], env_file_refs: seq![] })
    } else {
        None
    }
}

/// The built-in backstop: credential-shaped file names denied at any depth.
pub open spec fn builtin_backstop() -> Seq<Seq<char>> {
    seq!["**/credentials"@, "**/id_rsa"@, "**/id_dsa"@, "**/id_ecdsa"@, "**/id_ed25519"@, "**/.netrc"@, "**/.git-credentials"@]
}

/// The built-in catalog: version one, the type table and the backstop above.
pub open spec fn is_builtin(c: CatalogModel) -> bool {
    &&& c.version == 1
    &&& forall|name: Seq<char>| #[trigger] map_get(c.types, name) == builtin_entry(name)
    &&& c.backstop == builtin_backstop()
}

impl Catalog {
    /// The catalog shipped with the library: the curated credential types (cloud, VCS, package
    /// registries, model providers, SSH and GPG keys, keychains, system secrets, `.env` files and
    /// mounted secrets) and the backstop of credential-shaped file names.
    #[verifier::rlimit(50)]
    pub fn builtin() -> (r: Catalog)
        ensures
            is_builtin(r@),
    {
        let mut types: NameMap<CatalogEntry> = NameMap::new();
        let e = catalog_entry(&[], &["ANTHROPIC_API_KEY"], &[]);
        assert(e@.paths =~= seq![]);
        assert(e@.envs =~= seq!["ANTHROPIC_API_KEY"@]);
        assert(e@.env_file_refs =~= seq![]);
        types.insert(String::from_str("anthropic"), e);
        let e = catalog_entry(&["~/.aws/**"], &["AWS_ACCESS_KEY_ID", "AWS_SECRET_ACCESS_KEY", "AWS_SESSION_TOKEN", "AWS_SHARED_CREDENTIALS_FILE", "AWS_CONFIG_FILE"], &["AWS_SHARED_CREDENTIALS_FILE", "AWS_CONFIG_FILE"]);
        assert(e@.paths =~= seq!["~/.aws/**"@]);
        assert(e@.envs =~= seq!["AWS_ACCESS_KEY_ID"@, "AWS_SECRET_ACCESS_KEY"@, "AWS_SESSION_TOKEN"@, "AWS_SHARED_CREDENTIALS_FILE"@, "AWS_CONFIG_FILE"@]);
        assert(e@.env_file_refs =~= seq!["AWS_SHARED_CREDENTIALS_FILE"@, "AWS_CONFIG_FILE"@]);
        types.insert(String::from_str("aws"), e);
        let e = catalog_entry(&["~/.azure/**"], &["AZURE_CLIENT_SECRET"], &[]);
        assert(e@.paths =~= seq!["~/.azure/**"@]);
        assert(e@.envs =~= seq!["AZURE_CLIENT_SECRET"@]);
        assert(e@.env_file_refs =~= seq![]);
        types.insert(String::from_str("azure"), e);
        let e = catalog_entry(&["~/.codex/**"], &[], &[]);
        assert(e@.paths =~= seq!["~/.codex/**"@]);
        assert(e@.envs =~= seq![]);
        assert(e@.env_file_refs =~= seq![]);
        types.insert(String::from_str("codex"), e);
        let e = catalog_entry(&["~/.cursor/**"], &[], &[]);
        assert(e@.paths =~= seq!["~/.cursor/**"@]);
        assert(e@.envs =~= seq![]);
        assert(e@.env_file_refs =~= seq![]);
        types.insert(String::from_str("cursor"), e);
        let e = catalog_entry(&["~/.docker/**"], &["DOCKER_AUTH_CONFIG"], &[]);
        assert(e@.paths =~= seq!["~/.docker/**"@]);
        assert(e@.envs =~= seq!["DOCKER_AUTH_CONFIG"@]);
        assert(e@.env_file_refs =~= seq![]);
        types.insert(String::from_str("docker"), e);
        let e = catalog_entry(&["**/.env", "**/.env.local", "**/.env.production"], &[], &[]);
        assert(e@.paths =~= seq!["**/.env"@, "**/.env.local"@, "**/.env.production"@]);
        assert(e@.envs =~= seq![]);
        assert(e@.env_file_refs =~= seq![]);
        types.insert(String::from_str("dotenv"), e);
        let e = catalog_entry(&["~/.config/gcloud/**"], &["GOOGLE_APPLICATION_CREDENTIALS"], &["GOOGLE_APPLICATION_CREDENTIALS"]);
        assert(e@.paths =~= seq!["~/.config/gcloud/**"@]);
        assert(e@.envs =~= seq!["GOOGLE_APPLICATION_CREDENTIALS"@]);
        assert(e@.env_file_refs =~= seq!["GOOGLE_APPLICATION_CREDENTIALS"@]);
        types.insert(String::from_str("gcp"), e);
        let e = catalog_entry(&["~/.gemini/**"], &["GEMINI_API_KEY", "GOOGLE_API_KEY"], &[]);
        assert(e@.paths =~= seq!["~/.gemini/**"@]);
        assert(e@.envs =~= seq!["GEMINI_API_KEY"@, "GOOGLE_API_KEY"@]);
        assert(e@.env_file_refs =~= seq![]);
        types.insert(String::from_str("gemini"), e);
        let e = catalog_entry(&["~/.git-credentials"], &[], &[]);
        assert(e@.paths =~= seq!["~/.git-credentials"@]);
        assert(e@.envs =~= seq![]);
        assert(e@.env_file_refs =~= seq![]);
        types.insert(String::from_str("git-credentials"), e);
        let e = catalog_entry(&["~/.config/gh/**"], &["GITHUB_TOKEN", "GH_TOKEN"], &[]);
        assert(e@.paths =~= seq!["~/.config/gh/**"@]);
        assert(e@.envs =~= seq!["GITHUB_TOKEN"@, "GH_TOKEN"@]);
        assert(e@.env_file_refs =~= seq![]);
        types.insert(String::from_str("github"), e);
        let e = catalog_entry(&["~/.gnupg/**"], &[], &[]);
        assert(e@.paths =~= seq!["~/.gnupg/**"@]);
        assert(e@.envs =~= seq![]);
        assert(e@.env_file_refs =~= seq![]);
        types.insert(String::from_str("gnupg"), e);
        let e = catalog_entry(&["~/Library/Keychains/**", "/Library/Keychains/**"], &[], &[]);
        assert(e@.paths =~= seq!["~/Library/Keychains/**"@, "/Library/Keychains/**"@]);
        assert(e@.envs =~= seq![]);
        assert(e@.env_file_refs =~= seq![]);
        types.insert(String::from_str("keychain"), e);
        let e = catalog_entry(&["~/.kube/**"], &["KUBECONFIG"], &["KUBECONFIG"]);
        assert(e@.paths =~= seq!["~/.kube/**"@]);
        assert(e@.envs =~= seq!["KUBECONFIG"@]);
        assert(e@.env_file_refs =~= seq!["KUBECONFIG"@]);
        types.insert(String::from_str("kube"), e);
        let e = catalog_entry(&["~/.netrc"], &[], &[]);
        assert(e@.paths =~= seq!["~/.netrc"@]);
        assert(e@.envs =~= seq![]);
        assert(e@.env_file_refs =~= seq![]);
        types.insert(String::from_str("netrc"), e);
        let e = catalog_entry(&["~/.npmrc"], &["NPM_TOKEN"], &[]);
        assert(e@.paths =~= seq!["~/.npmrc"@]);
        assert(e@.envs =~= seq!["NPM_TOKEN"@]);
        assert(e@.env_file_refs =~= seq![]);
        types.insert(String::from_str("npm"), e);
        let e = catalog_entry(&[], &["OPENAI_API_KEY"], &[]);
        assert(e@.paths =~= seq![]);
        assert(e@.envs =~= seq!["OPENAI_API_KEY"@]);
        assert(e@.env_file_refs =~= seq![]);
        types.insert(String::from_str("openai"), e);
        let e = catalog_entry(&["~/.pypirc"], &["TWINE_PASSWORD"], &[]);
        assert(e@.paths =~= seq!["~/.pypirc"@]);
        assert(e@.envs =~= seq!["TWINE_PASSWORD"@]);
        assert(e@.env_file_refs =~= seq![]);
        types.insert(String::from_str("pypi"), e);
        let e = catalog_entry(&["/run/secrets/**"], &[], &[]);
        assert(e@.paths =~= seq!["/run/secrets/**"@]);
        assert(e@.envs =~= seq![]);
        assert(e@.env_file_refs =~= seq![]);
        types.insert(String::from_str("secrets-mount"), e);
        let e = catalog_entry(&[], &["SLACK_BOT_TOKEN", "SLACK_USER_TOKEN"], &[]);
        assert(e@.paths =~= seq![]);
        assert(e@.envs =~= seq!["SLACK_BOT_TOKEN"@, "SLACK_USER_TOKEN"@]);
        assert(e@.env_file_refs =~= seq![]);
        types.insert(String::from_str("slack"), e);
        let e = catalog_entry(&["~/.ssh/**"], &[], &[]);
        assert(e@.paths =~= seq!["~/.ssh/**"@]);
        assert(e@.envs =~= seq![]);
        assert(e@.env_file_refs =~= seq![]);
        types.insert(String::from_str("ssh"), e);
        let e = catalog_entry(&["/etc/shadow", "/etc/sudoers"], &[], &[]);
        assert(e@.paths =~= seq!["/etc/shadow"@, "/etc/sudoers"@]);
        assert(e@.envs =~= seq![]);
        assert(e@.env_file_refs =~= seq![]);
        types.insert(String::from_str("system"), e);
        let backstop = owned(&["**/credentials", "**/id_rsa", "**/id_dsa", "**/id_ecdsa", "**/id_ed25519", "**/.netrc", "**/.git-credentials"]);
        assert(strs_view(backstop@) =~= builtin_backstop());
        Catalog {
            version: 1,
            types,
            backstop: BackstopEntry { paths: backstop },
        }
    }
}

} // verus!
