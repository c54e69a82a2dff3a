//! Path patterns: normalized absolute paths with an optional `/**` subtree marker, plus two
//! any-depth forms: the recursive-basename form `**/<suffix>`, matching at any depth anywhere,
//! and its prefix-anchored refinement `<prefix>/**/<suffix>`, matching only below the absolute
//! prefix. Normalization (lexical `.` and `..`, collapsed slashes, no trailing slash) makes equal
//! scopes compare equal, which keeps compilation deterministic and narrowing exact. A pattern is
//! held as its list of path components; `~` is expanded by the caller, not here.

use vstd::prelude::*;
use crate::text::{chars_eq, chars_of, ends_with, has_prefix, has_suffix, push_all, push_char, slice_chars, starts_with, string_of};

verus! {

/// A list of path components (each a non-empty character sequence without `/`).
pub type Comps = Seq<Seq<char>>;

pub open spec fn dot() -> Seq<char> {
    seq!['.']
}

pub open spec fn dotdot() -> Seq<char> {
    seq!['.', '.']
}

pub open spec fn globstar() -> Seq<char> {
    seq!['*', '*']
}

/// `s` cut at every `/` (so `n` slashes give `n + 1` pieces, possibly empty).
pub open spec fn split_slash(s: Seq<char>) -> Seq<Seq<char>>
    decreases s.len(),
{
    if s.len() == 0 {
        seq![Seq::<char>::empty()]
    } else {
        let r = split_slash(s.drop_last());
        if s.last() == '/' {
            r.push(Seq::<char>::empty())
        } else {
            r.update(r.len() - 1, r.last().push(s.last()))
        }
    }
}

pub proof fn lemma_split_nonempty(s: Seq<char>)
    ensures
        split_slash(s).len() >= 1,
    decreases s.len(),
{
    if s.len() > 0 {
        lemma_split_nonempty(s.drop_last());
    }
}

/// One step of lexical normalization of an absolute path: empty pieces and `.` vanish, `..`
/// removes the previous component and fails above the root.
pub open spec fn abs_step(acc: Option<Comps>, p: Seq<char>) -> Option<Comps> {
    match acc {
        None => None,
        Some(a) => if p.len() == 0 || p == dot() {
            Some(a)
        } else if p == dotdot() {
            if a.len() == 0 {
                None
            } else {
                Some(a.drop_last())
            }
        } else {
            Some(a.push(p))
        },
    }
}

pub open spec fn norm_abs_pieces(pieces: Seq<Seq<char>>) -> Option<Comps>
    decreases pieces.len(),
{
    if pieces.len() == 0 {
        Some(Seq::<Seq<char>>::empty())
    } else {
        abs_step(norm_abs_pieces(pieces.drop_last()), pieces.last())
    }
}

/// Lexical normalization of an absolute path; `None` when `..` climbs above the root.
pub open spec fn norm_abs(s: Seq<char>) -> Option<Comps> {
    norm_abs_pieces(split_slash(s))
}

/// One step of normalizing a relative suffix: `..` and `**` are rejected outright.
pub open spec fn rel_step(acc: Option<Comps>, p: Seq<char>) -> Option<Comps> {
    match acc {
        None => None,
        Some(a) => if p.len() == 0 || p == dot() {
            Some(a)
        } else if p == dotdot() || p == globstar() {
            None
        } else {
            Some(a.push(p))
        },
    }
}

pub open spec fn norm_rel_pieces(pieces: Seq<Seq<char>>) -> Option<Comps>
    decreases pieces.len(),
{
    if pieces.len() == 0 {
        Some(Seq::<Seq<char>>::empty())
    } else {
        rel_step(norm_rel_pieces(pieces.drop_last()), pieces.last())
    }
}

/// The relative suffix of an any-depth pattern: normal components only -- no root, no `..`, no
/// interior `**` -- and at least one of them.
pub open spec fn norm_rel(s: Seq<char>) -> Option<Comps> {
    if s.len() > 0 && s[0] == '/' {
        None
    } else {
        match norm_rel_pieces(split_slash(s)) {
            Some(a) => if a.len() > 0 {
                Some(a)
            } else {
                None
            },
            None => None,
        }
    }
}

/// Does any component equal `**`?
pub open spec fn has_globstar(c: Comps) -> bool {
    exists|k: int| 0 <= k < c.len() && c[k] == globstar()
}

/// The components of a concrete path as the kernel would walk them: empty pieces and `.` vanish,
/// `..` stays a component of its own.
pub open spec fn concrete_pieces(pieces: Seq<Seq<char>>) -> Comps
    decreases pieces.len(),
{
    if pieces.len() == 0 {
        Seq::<Seq<char>>::empty()
    } else {
        let r = concrete_pieces(pieces.drop_last());
        let p = pieces.last();
        if p.len() == 0 || p == dot() {
            r
        } else {
            r.push(p)
        }
    }
}

pub open spec fn concrete_comps(s: Seq<char>) -> Comps {
    concrete_pieces(split_slash(s))
}

pub open spec fn is_absolute(s: Seq<char>) -> bool {
    s.len() > 0 && s[0] == '/'
}

pub open spec fn comps_view(v: Seq<Vec<char>>) -> Comps {
    v.map_values(|c: Vec<char>| c@)
}

/// Cut `s` at every `/`.
pub fn split_pieces(s: &[char]) -> (r: Vec<Vec<char>>)
    ensures
        comps_view(r@) == split_slash(s@),
{
    let mut pieces: Vec<Vec<char>> = Vec::new();
    pieces.push(Vec::new());
    let mut i: usize = 0;
    assert(s@.take(0) =~= Seq::<char>::empty());
    assert(comps_view(pieces@) =~= split_slash(s@.take(0)));
    while i < s.len()
        invariant
            i <= s.len(),
            pieces.len() >= 1,
            comps_view(pieces@) == split_slash(s@.take(i as int)),
        decreases s.len() - i,
    {
        let c = s[i];
        let ghost prev = s@.take(i as int);
        assert(s@.take(i + 1).drop_last() =~= prev);
        assert(s@.take(i + 1).last() == c);
        if c == '/' {
            pieces.push(Vec::new());
            assert(comps_view(pieces@) =~= split_slash(s@.take(i + 1)));
        } else {
            let mut last = pieces.pop().unwrap();
            last.push(c);
            pieces.push(last);
            assert(comps_view(pieces@) =~= split_slash(s@.take(i + 1)));
        }
        i = i + 1;
    }
    assert(s@.take(s.len() as int) =~= s@);
    pieces
}

pub fn is_dot(p: &[char]) -> (r: bool)
    ensures
        r == (p@ == dot()),
{
    let r = p.len() == 1 && p[0] == '.';
    if r {
        assert(p@ =~= dot());
    }
    r
}

pub fn is_dotdot(p: &[char]) -> (r: bool)
    ensures
        r == (p@ == dotdot()),
{
    let r = p.len() == 2 && p[0] == '.' && p[1] == '.';
    if r {
        assert(p@ =~= dotdot());
    }
    r
}

pub fn is_globstar(p: &[char]) -> (r: bool)
    ensures
        r == (p@ == globstar()),
{
    let r = p.len() == 2 && p[0] == '*' && p[1] == '*';
    if r {
        assert(p@ =~= globstar());
    }
    r
}

/// Lexical normalization of an absolute path (no filesystem access).
pub fn normalize_absolute(s: &[char]) -> (r: Option<Vec<Vec<char>>>)
    ensures
        match r {
            Some(v) => norm_abs(s@) == Some(comps_view(v@)),
            None => norm_abs(s@) is None,
        },
{
    let pieces = split_pieces(s);
    let mut out: Vec<Vec<char>> = Vec::new();
    let mut i: usize = 0;
    assert(pieces@.take(0) =~= Seq::<Vec<char>>::empty());
    assert(comps_view(pieces@.take(0)) =~= Seq::<Seq<char>>::empty());
    while i < pieces.len()
        invariant
            i <= pieces.len(),
            comps_view(pieces@) == split_slash(s@),
            norm_abs_pieces(comps_view(pieces@.take(i as int))) == Some(comps_view(out@)),
        decreases pieces.len() - i,
    {
        let ghost before = comps_view(out@);
        assert(comps_view(pieces@.take(i + 1)).drop_last() =~= comps_view(pieces@.take(i as int)));
        assert(comps_view(pieces@.take(i + 1)).last() == pieces@[i as int]@);
        let p = &pieces[i];
        if p.len() == 0 || is_dot(p.as_slice()) {
        } else if is_dotdot(p.as_slice()) {
            if out.len() == 0 {
                proof {
                    assert(norm_abs_pieces(comps_view(pieces@.take(i + 1))) is None);
                    assert(comps_view(pieces@).take(i + 1) =~= comps_view(pieces@.take(i + 1)));
                    lemma_abs_none_sticks(comps_view(pieces@), i + 1, pieces.len() as int);
                    assert(comps_view(pieces@).take(pieces.len() as int) =~= comps_view(pieces@));
                }
                return None;
            }
            out.pop();
            assert(comps_view(out@) =~= before.drop_last());
        } else {
            out.push(clone_chars(p));
            assert(comps_view(out@) =~= before.push(pieces@[i as int]@));
        }
        i = i + 1;
    }
    assert(pieces@.take(pieces.len() as int) =~= pieces@);
    Some(out)
}

/// Once `..` has climbed above the root, normalization stays failed.
pub proof fn lemma_abs_none_sticks(pieces: Seq<Seq<char>>, i: int, j: int)
    requires
        0 <= i <= j <= pieces.len(),
        norm_abs_pieces(pieces.take(i)) is None,
    ensures
        norm_abs_pieces(pieces.take(j)) is None,
    decreases j - i,
{
    if j > i {
        lemma_abs_none_sticks(pieces, i, j - 1);
        assert(pieces.take(j).drop_last() =~= pieces.take(j - 1));
    }
}

pub proof fn lemma_rel_none_sticks(pieces: Seq<Seq<char>>, i: int, j: int)
    requires
        0 <= i <= j <= pieces.len(),
        norm_rel_pieces(pieces.take(i)) is None,
    ensures
        norm_rel_pieces(pieces.take(j)) is None,
    decreases j - i,
{
    if j > i {
        lemma_rel_none_sticks(pieces, i, j - 1);
        assert(pieces.take(j).drop_last() =~= pieces.take(j - 1));
    }
}

/// A copy of a character vector.
pub fn clone_chars(v: &Vec<char>) -> (r: Vec<char>)
    ensures
        r@ == v@,
{
    let mut r: Vec<char> = Vec::new();
    let mut i: usize = 0;
    while i < v.len()
        invariant
            i <= v.len(),
            r@ == v@.take(i as int),
        decreases v.len() - i,
    {
        r.push(v[i]);
        i = i + 1;
        assert(r@ =~= v@.take(i as int));
    }
    assert(r@ =~= v@);
    r
}

/// A copy of a component list.
pub fn clone_comps(v: &Vec<Vec<char>>) -> (r: Vec<Vec<char>>)
    ensures
        comps_view(r@) == comps_view(v@),
        r.len() == v.len(),
{
    let mut r: Vec<Vec<char>> = Vec::new();
    let mut i: usize = 0;
    while i < v.len()
        invariant
            i <= v.len(),
            r.len() == i,
            comps_view(r@) == comps_view(v@.take(i as int)),
        decreases v.len() - i,
    {
        let c = clone_chars(&v[i]);
        let ghost before = r@;
        r.push(c);
        assert(r@ == before.push(c));
        i = i + 1;
        assert forall|k: int| 0 <= k < i implies #[trigger] comps_view(r@)[k] == comps_view(
            v@.take(i as int),
        )[k] by {
            if k < i - 1 {
                assert(comps_view(before)[k] == comps_view(v@.take(i - 1))[k]);
            }
        }
        assert(comps_view(r@) =~= comps_view(v@.take(i as int)));
    }
    assert(v@.take(v.len() as int) =~= v@);
    r
}

/// The suffix of an any-depth pattern, normalized; `None` when it is not a plain relative suffix.
pub fn normalize_relative(s: &[char]) -> (r: Option<Vec<Vec<char>>>)
    ensures
        match r {
            Some(v) => norm_rel(s@) == Some(comps_view(v@)),
            None => norm_rel(s@) is None,
        },
{
    if s.len() > 0 && s[0] == '/' {
        return None;
    }
    let pieces = split_pieces(s);
    let mut out: Vec<Vec<char>> = Vec::new();
    let mut i: usize = 0;
    assert(comps_view(pieces@.take(0)) =~= Seq::<Seq<char>>::empty());
    while i < pieces.len()
        invariant
            i <= pieces.len(),
            comps_view(pieces@) == split_slash(s@),
            norm_rel_pieces(comps_view(pieces@.take(i as int))) == Some(comps_view(out@)),
        decreases pieces.len() - i,
    {
        let ghost before = comps_view(out@);
        assert(comps_view(pieces@.take(i + 1)).drop_last() =~= comps_view(pieces@.take(i as int)));
        assert(comps_view(pieces@.take(i + 1)).last() == pieces@[i as int]@);
        let p = &pieces[i];
        if p.len() == 0 || is_dot(p.as_slice()) {
        } else if is_dotdot(p.as_slice()) || is_globstar(p.as_slice()) {
            proof {
                assert(norm_rel_pieces(comps_view(pieces@.take(i + 1))) is None);
                lemma_rel_none_sticks(comps_view(pieces@), i + 1, pieces.len() as int);
                assert(comps_view(pieces@).take(i + 1) =~= comps_view(pieces@.take(i + 1)));
                assert(comps_view(pieces@).take(pieces.len() as int) =~= comps_view(pieces@));
            }
            return None;
        } else {
            out.push(clone_chars(p));
            assert(comps_view(out@) =~= before.push(pieces@[i as int]@));
        }
        i = i + 1;
    }
    assert(pieces@.take(pieces.len() as int) =~= pieces@);
    if out.len() == 0 {
        None
    } else {
        Some(out)
    }
}

/// The components of a concrete path.
pub fn concrete_components(s: &[char]) -> (r: Vec<Vec<char>>)
    ensures
        comps_view(r@) == concrete_comps(s@),
{
    let pieces = split_pieces(s);
    let mut out: Vec<Vec<char>> = Vec::new();
    let mut i: usize = 0;
    assert(comps_view(pieces@.take(0)) =~= Seq::<Seq<char>>::empty());
    while i < pieces.len()
        invariant
            i <= pieces.len(),
            comps_view(pieces@) == split_slash(s@),
            concrete_pieces(comps_view(pieces@.take(i as int))) == comps_view(out@),
        decreases pieces.len() - i,
    {
        let ghost before = comps_view(out@);
        assert(comps_view(pieces@.take(i + 1)).drop_last() =~= comps_view(pieces@.take(i as int)));
        assert(comps_view(pieces@.take(i + 1)).last() == pieces@[i as int]@);
        let p = &pieces[i];
        if p.len() == 0 || is_dot(p.as_slice()) {
        } else {
            out.push(clone_chars(p));
            assert(comps_view(out@) =~= before.push(pieces@[i as int]@));
        }
        i = i + 1;
    }
    assert(pieces@.take(pieces.len() as int) =~= pieces@);
    out
}

} // verus!

verus! {

pub open spec fn slash() -> Seq<char> {
    seq!['/']
}

/// `/**`, the subtree marker.
pub open spec fn slash_globstar() -> Seq<char> {
    seq!['/', '*', '*']
}

/// `**/`, the any-depth prefix.
pub open spec fn globstar_slash() -> Seq<char> {
    seq!['*', '*', '/']
}

/// `/**/`, the anchored any-depth separator.
pub open spec fn glob_sep() -> Seq<char> {
    seq!['/', '*', '*', '/']
}

/// The first position at or after `i` where `pat` occurs in `s`.
pub open spec fn find_from(s: Seq<char>, pat: Seq<char>, i: int) -> Option<int>
    decreases s.len() - i,
{
    if pat.len() == 0 || i < 0 || i + pat.len() > s.len() {
        None
    } else if s.subrange(i, i + pat.len()) == pat {
        Some(i)
    } else {
        find_from(s, pat, i + 1)
    }
}

pub proof fn lemma_find_from_some(s: Seq<char>, pat: Seq<char>, i: int, k: int)
    requires
        find_from(s, pat, i) == Some(k),
    ensures
        i <= k,
        k + pat.len() <= s.len(),
        s.subrange(k, k + pat.len()) == pat,
    decreases s.len() - i,
{
    if pat.len() == 0 || i < 0 || i + pat.len() > s.len() {
    } else if s.subrange(i, i + pat.len()) == pat {
    } else {
        lemma_find_from_some(s, pat, i + 1, k);
    }
}

/// Strip a trailing `/**`, reporting whether it was there.
pub open spec fn strip_subtree(s: Seq<char>) -> (Seq<char>, bool) {
    if ends_with(s, slash_globstar()) {
        (s.take(s.len() - 3), true)
    } else {
        (s, false)
    }
}

/// The abstract value of a pattern.
pub struct PatternModel {
    pub base: Comps,
    pub subtree: bool,
    pub any_depth: bool,
    pub anchor: Option<Comps>,
}

pub enum PathErrorModel {
    NotAbsolute(Seq<char>),
    Empty,
    EscapesRoot(Seq<char>),
}

/// What `PathPattern::parse` yields for an input string.
pub open spec fn parse_model(s: Seq<char>) -> Result<PatternModel, PathErrorModel> {
    if s.len() == 0 {
        Err(PathErrorModel::Empty)
    } else if starts_with(s, globstar_slash()) {
        let (suffix, subtree) = strip_subtree(s.skip(3));
        if suffix.len() == 0 || suffix == globstar() {
            Err(PathErrorModel::Empty)
        } else {
            match norm_rel(suffix) {
                None => Err(PathErrorModel::EscapesRoot(s)),
                Some(b) => Ok(PatternModel { base: b, subtree, any_depth: true, anchor: None }),
            }
        }
    } else {
        match find_from(s, glob_sep(), 0) {
            Some(k) => if !is_absolute(s) {
                Err(PathErrorModel::NotAbsolute(s))
            } else {
                let prefix = s.take(k);
                let (suffix, subtree) = strip_subtree(s.skip(k + 4));
                if suffix.len() == 0 {
                    Err(PathErrorModel::Empty)
                } else {
                    let anchor_src = if prefix.len() == 0 {
                        slash()
                    } else {
                        prefix
                    };
                    match norm_abs(anchor_src) {
                        None => Err(PathErrorModel::EscapesRoot(s)),
                        Some(a) => if has_globstar(a) {
                            Err(PathErrorModel::EscapesRoot(s))
                        } else {
                            match norm_rel(suffix) {
                                None => Err(PathErrorModel::EscapesRoot(s)),
                                Some(b) => Ok(
                                    PatternModel {
                                        base: b,
                                        subtree,
                                        any_depth: true,
                                        anchor: if a.len() == 0 {
                                            None
                                        } else {
                                            Some(a)
                                        },
                                    },
                                ),
                            }
                        },
                    }
                }
            },
            None => {
                let (path_part, subtree) = if s == slash_globstar() {
                    (slash(), true)
                } else {
                    strip_subtree(s)
                };
                if !is_absolute(path_part) {
                    Err(PathErrorModel::NotAbsolute(s))
                } else {
                    match norm_abs(path_part) {
                        None => Err(PathErrorModel::EscapesRoot(s)),
                        Some(b) => Ok(
                            PatternModel { base: b, subtree, any_depth: false, anchor: None },
                        ),
                    }
                }
            },
        }
    }
}

/// Components joined by `/`, with no leading slash.
pub open spec fn join(c: Comps) -> Seq<char>
    decreases c.len(),
{
    if c.len() == 0 {
        Seq::<char>::empty()
    } else if c.len() == 1 {
        c[0]
    } else {
        join(c.drop_last()) + slash() + c.last()
    }
}

/// An absolute path rendered from its components: `/` for the root.
pub open spec fn render_abs(c: Comps) -> Seq<char> {
    slash() + join(c)
}

/// The canonical text of a pattern; it parses back to the same pattern.
pub open spec fn canonical_model(p: PatternModel) -> Seq<char> {
    if p.any_depth {
        let tail = if p.subtree {
            join(p.base) + slash_globstar()
        } else {
            join(p.base)
        };
        match p.anchor {
            Some(a) => render_abs(a) + glob_sep() + tail,
            None => globstar_slash() + tail,
        }
    } else if p.subtree {
        if p.base.len() == 0 {
            slash_globstar()
        } else {
            render_abs(p.base) + slash_globstar()
        }
    } else {
        render_abs(p.base)
    }
}

/// Is `a` a component-wise prefix of `b`?
pub open spec fn comps_prefix(a: Comps, b: Comps) -> bool {
    a.len() <= b.len() && b.take(a.len() as int) == a
}

/// Pattern-to-pattern authority: every path `other` names is named by `p`. Among absolute
/// patterns a subtree covers what lies at or below its base and a literal only itself; among
/// any-depth patterns the suffixes compare the same way and `p`'s anchor scope must contain
/// `other`'s; an absolute subtree covers an any-depth pattern only when it contains every possible
/// match; an any-depth pattern never covers an absolute one.
pub open spec fn covers_model(p: PatternModel, other: PatternModel) -> bool {
    if !p.any_depth && !other.any_depth {
        if p.subtree {
            comps_prefix(p.base, other.base)
        } else {
            !other.subtree && p.base == other.base
        }
    } else if p.any_depth && other.any_depth {
        let anchor_contained = match (p.anchor, other.anchor) {
            (None, _) => true,
            (Some(a), Some(b)) => comps_prefix(a, b),
            (Some(_), None) => false,
        };
        anchor_contained && if p.subtree {
            comps_prefix(p.base, other.base)
        } else {
            !other.subtree && p.base == other.base
        }
    } else if !p.any_depth && other.any_depth {
        p.subtree && match other.anchor {
            Some(a) => comps_prefix(p.base, a),
            None => p.base.len() == 0,
        }
    } else {
        false
    }
}

/// Does `base` occur as a run of consecutive components somewhere in `comps`?
pub open spec fn occurs_within(base: Comps, comps: Comps) -> bool {
    exists|k: int|
        0 <= k && k + base.len() <= comps.len() && #[trigger] comps.subrange(k, k + base.len())
            == base
}

/// The match relation the kernel applies to a concrete path (absolute or not, with components
/// `comps`).
pub open spec fn matches_model(p: PatternModel, abs: bool, comps: Comps) -> bool {
    if !p.any_depth {
        abs && if p.subtree {
            comps_prefix(p.base, comps)
        } else {
            comps == p.base
        }
    } else {
        let rem = match p.anchor {
            Some(a) => if abs && comps_prefix(a, comps) {
                Some(comps.skip(a.len() as int))
            } else {
                None
            },
            None => Some(comps),
        };
        match rem {
            None => false,
            Some(r) => p.base.len() > 0 && p.base.len() <= r.len() && if p.subtree {
                occurs_within(p.base, r)
            } else {
                r.skip(r.len() - p.base.len()) == p.base
            },
        }
    }
}

} // verus!

verus! {

/// A path pattern. Absolute when not any-depth (its `base` then lists the components below the
/// root); for the any-depth forms `base` is the relative suffix and `anchor`, if any, the
/// absolute prefix below which it may match.
#[derive(Clone, Debug, PartialEq, Eq)]
pub struct PathPattern {
    base: Vec<Vec<char>>,
    subtree: bool,
    any_depth: bool,
    anchor: Option<Vec<Vec<char>>>,
}

/// Only an any-depth pattern carries an anchor.
pub proof fn pattern_values_are_well_formed(p: PathPattern)
    ensures
        !p@.any_depth ==> p@.anchor is None,
{
}

/// Why a pattern failed to parse; the payload is the offending input.
#[derive(Clone, Debug, PartialEq, Eq)]
pub enum PathError {
    NotAbsolute(String),
    Empty,
    EscapesRoot(String),
}

impl View for PathPattern {
    type V = PatternModel;

    closed spec fn view(&self) -> PatternModel {
        PatternModel {
            base: comps_view(self.base@),
            subtree: self.subtree,
            any_depth: self.any_depth,
            anchor: if self.any_depth {
                match self.anchor {
                    Some(a) => Some(comps_view(a@)),
                    None => None,
                }
            } else {
                None
            },
        }
    }
}

impl View for PathError {
    type V = PathErrorModel;

    open spec fn view(&self) -> PathErrorModel {
        match self {
            PathError::NotAbsolute(s) => PathErrorModel::NotAbsolute(s@),
            PathError::Empty => PathErrorModel::Empty,
            PathError::EscapesRoot(s) => PathErrorModel::EscapesRoot(s@),
        }
    }
}

pub open spec fn parse_result_view(r: Result<PathPattern, PathError>) -> Result<
    PatternModel,
    PathErrorModel,
> {
    match r {
        Ok(p) => Ok(p@),
        Err(e) => Err(e@),
    }
}

fn starts_globstar_slash(s: &[char]) -> (r: bool)
    ensures
        r == starts_with(s@, globstar_slash()),
{
    let r = s.len() >= 3 && s[0] == '*' && s[1] == '*' && s[2] == '/';
    if r {
        assert(s@.take(3) =~= globstar_slash());
    } else if s.len() >= 3 {
        assert(s@.take(3)[0] == s@[0] && s@.take(3)[1] == s@[1] && s@.take(3)[2] == s@[2]);
    }
    r
}

pub(crate) fn is_slash_globstar(s: &[char]) -> (r: bool)
    ensures
        r == (s@ == slash_globstar()),
{
    let r = s.len() == 3 && s[0] == '/' && s[1] == '*' && s[2] == '*';
    if r {
        assert(s@ =~= slash_globstar());
    }
    r
}

/// Strip a trailing `/**`.
pub(crate) fn strip_subtree_exec(s: &[char]) -> (r: (Vec<char>, bool))
    ensures
        (r.0@, r.1) == strip_subtree(s@),
{
    let n: usize = s.len();
    if n >= 3 && s[n - 3] == '/' && s[n - 2] == '*' && s[n - 1] == '*' {
        assert(s@.skip(n - 3) =~= slash_globstar());
        (slice_chars(s, 0, n - 3), true)
    } else {
        if n >= 3 {
            assert(s@.skip(n - 3)[0] == s@[n - 3]);
            assert(s@.skip(n - 3)[1] == s@[n - 2]);
            assert(s@.skip(n - 3)[2] == s@[n - 1]);
        }
        assert(s@.take(n as int) =~= s@);
        (slice_chars(s, 0, n), false)
    }
}

/// The first `/**/` in `s`.
fn find_glob_sep(s: &[char]) -> (r: Option<usize>)
    ensures
        match r {
            Some(k) => find_from(s@, glob_sep(), 0) == Some(k as int),
            None => find_from(s@, glob_sep(), 0) is None,
        },
{
    let mut i: usize = 0;
    while i < s.len() && s.len() - i >= 4
        invariant
            find_from(s@, glob_sep(), 0) == find_from(s@, glob_sep(), i as int),
        decreases s.len() - i,
    {
        if s[i] == '/' && s[i + 1] == '*' && s[i + 2] == '*' && s[i + 3] == '/' {
            assert(s@.subrange(i as int, i + 4) =~= glob_sep());
            return Some(i);
        }
        assert(s@.subrange(i as int, i + 4)[0] == s@[i as int]);
        assert(s@.subrange(i as int, i + 4)[1] == s@[i + 1]);
        assert(s@.subrange(i as int, i + 4)[2] == s@[i + 2]);
        assert(s@.subrange(i as int, i + 4)[3] == s@[i + 3]);
        i = i + 1;
    }
    None
}

fn comps_have_globstar(c: &Vec<Vec<char>>) -> (r: bool)
    ensures
        r == has_globstar(comps_view(c@)),
{
    let mut i: usize = 0;
    while i < c.len()
        invariant
            i <= c.len(),
            forall|k: int| 0 <= k < i ==> comps_view(c@)[k] != globstar(),
        decreases c.len() - i,
    {
        if is_globstar(c[i].as_slice()) {
            assert(comps_view(c@)[i as int] == globstar());
            return true;
        }
        i = i + 1;
    }
    false
}

impl PathPattern {
    /// Parse a pattern: `/abs/path`, `/abs/path/**`, `**/suffix[/**]`, or
    /// `/prefix/**/suffix[/**]`, normalizing lexically.
    pub fn parse(input: &str) -> (r: Result<PathPattern, PathError>)
        ensures
            parse_result_view(r) == parse_model(input@),
    {
        let s = chars_of(input);
        if s.len() == 0 {
            return Err(PathError::Empty);
        }
        if starts_globstar_slash(s.as_slice()) {
            let rest = slice_chars(s.as_slice(), 3, s.len());
            assert(rest@ == s@.skip(3));
            let (suffix, subtree) = strip_subtree_exec(rest.as_slice());
            if suffix.len() == 0 || is_globstar(suffix.as_slice()) {
                return Err(PathError::Empty);
            }
            return match normalize_relative(suffix.as_slice()) {
                None => Err(PathError::EscapesRoot(string_of(s.as_slice()))),
                Some(b) => Ok(PathPattern { base: b, subtree, any_depth: true, anchor: None }),
            };
        }
        match find_glob_sep(s.as_slice()) {
            Some(k) => {
                proof {
                    lemma_find_from_some(s@, glob_sep(), 0, k as int);
                }
                if s[0] != '/' {
                    return Err(PathError::NotAbsolute(string_of(s.as_slice())));
                }
                let prefix = slice_chars(s.as_slice(), 0, k);
                let rest = slice_chars(s.as_slice(), k + 4, s.len());
                assert(prefix@ == s@.take(k as int));
                assert(rest@ == s@.skip(k + 4));
                let (suffix, subtree) = strip_subtree_exec(rest.as_slice());
                if suffix.len() == 0 {
                    return Err(PathError::Empty);
                }
                let anchor_src = if prefix.len() == 0 {
                    let v = vec!['/'];
                    assert(v@ =~= slash());
                    v
                } else {
                    prefix
                };
                let anchor = match normalize_absolute(anchor_src.as_slice()) {
                    None => {
                        return Err(PathError::EscapesRoot(string_of(s.as_slice())));
                    },
                    Some(a) => a,
                };
                if comps_have_globstar(&anchor) {
                    return Err(PathError::EscapesRoot(string_of(s.as_slice())));
                }
                let base = match normalize_relative(suffix.as_slice()) {
                    None => {
                        return Err(PathError::EscapesRoot(string_of(s.as_slice())));
                    },
                    Some(b) => b,
                };
                let anchor = if anchor.len() == 0 {
                    None
                } else {
                    Some(anchor)
                };
                Ok(PathPattern { base, subtree, any_depth: true, anchor })
            },
            None => {
                let (path_part, subtree) = if is_slash_globstar(s.as_slice()) {
                    let v = vec!['/'];
                    assert(v@ =~= slash());
                    (v, true)
                } else {
                    strip_subtree_exec(s.as_slice())
                };
                if path_part.len() == 0 || path_part[0] != '/' {
                    return Err(PathError::NotAbsolute(string_of(s.as_slice())));
                }
                match normalize_absolute(path_part.as_slice()) {
                    None => Err(PathError::EscapesRoot(string_of(s.as_slice()))),
                    Some(b) => Ok(PathPattern { base: b, subtree, any_depth: false, anchor: None }),
                }
            },
        }
    }
}

} // verus!

verus! {

pub proof fn lemma_join_step(c: Comps, i: int)
    requires
        0 <= i < c.len(),
    ensures
        join(c.take(i + 1)) == if i == 0 {
            c[0]
        } else {
            join(c.take(i)) + slash() + c[i]
        },
{
    assert(c.take(i + 1).drop_last() =~= c.take(i));
    assert(c.take(i + 1).last() == c[i]);
}

/// Appends `join(c)` to `out`.
pub fn push_joined(out: &mut String, c: &Vec<Vec<char>>)
    ensures
        final(out)@ == old(out)@ + join(comps_view(c@)),
{
    let ghost start = out@;
    let mut i: usize = 0;
    assert(comps_view(c@).take(0) =~= Seq::<Seq<char>>::empty());
    while i < c.len()
        invariant
            i <= c.len(),
            out@ == start + join(comps_view(c@).take(i as int)),
        decreases c.len() - i,
    {
        proof {
            lemma_join_step(comps_view(c@), i as int);
        }
        if i > 0 {
            push_char(out, '/');
        }
        push_all(out, c[i].as_slice());
        i = i + 1;
        assert(out@ =~= start + join(comps_view(c@).take(i as int)));
    }
    assert(comps_view(c@).take(c.len() as int) =~= comps_view(c@));
}

/// Appends `render_abs(c)` to `out`.
pub fn push_abs(out: &mut String, c: &Vec<Vec<char>>)
    ensures
        final(out)@ == old(out)@ + render_abs(comps_view(c@)),
{
    push_char(out, '/');
    push_joined(out, c);
    assert(out@ =~= old(out)@ + render_abs(comps_view(c@)));
}

/// Component-list equality.
pub fn comps_eq(a: &Vec<Vec<char>>, b: &Vec<Vec<char>>) -> (r: bool)
    ensures
        r == (comps_view(a@) == comps_view(b@)),
{
    assert(comps_view(a@).len() == a.len() && comps_view(b@).len() == b.len());
    if a.len() != b.len() {
        return false;
    }
    let mut i: usize = 0;
    while i < a.len()
        invariant
            a.len() == b.len(),
            i <= a.len(),
            forall|k: int| 0 <= k < i ==> comps_view(a@)[k] == comps_view(b@)[k],
        decreases a.len() - i,
    {
        if !chars_eq(a[i].as_slice(), b[i].as_slice()) {
            assert(comps_view(a@)[i as int] != comps_view(b@)[i as int]);
            return false;
        }
        i = i + 1;
    }
    assert(comps_view(a@) =~= comps_view(b@));
    true
}

/// Is `a` a prefix of `b[from..]`, compared component by component?
fn comps_match_at(a: &Vec<Vec<char>>, b: &Vec<Vec<char>>, from: usize) -> (r: bool)
    requires
        from + a.len() <= b.len(),
    ensures
        r == (comps_view(b@).subrange(from as int, from + a.len()) == comps_view(a@)),
{
    let mut i: usize = 0;
    while i < a.len()
        invariant
            from + a.len() <= b.len(),
            i <= a.len(),
            forall|k: int| 0 <= k < i ==> comps_view(b@)[from + k] == comps_view(a@)[k],
        decreases a.len() - i,
    {
        if !chars_eq(a[i].as_slice(), b[from + i].as_slice()) {
            assert(comps_view(b@).subrange(from as int, from + a.len())[i as int] != comps_view(
                a@,
            )[i as int]);
            return false;
        }
        i = i + 1;
    }
    assert(comps_view(b@).subrange(from as int, from + a.len()) =~= comps_view(a@));
    true
}

/// Is `a` a component-wise prefix of `b`?
pub fn comps_prefix_exec(a: &Vec<Vec<char>>, b: &Vec<Vec<char>>) -> (r: bool)
    ensures
        r == comps_prefix(comps_view(a@), comps_view(b@)),
{
    if a.len() > b.len() {
        return false;
    }
    let r = comps_match_at(a, b, 0);
    assert(comps_view(b@).subrange(0, a.len() as int) =~= comps_view(b@).take(a.len() as int));
    r
}

impl PathPattern {
    /// The pattern's base path: the absolute path for a plain pattern, the relative suffix for an
    /// any-depth one.
    pub fn base(&self) -> (r: String)
        ensures
            r@ == if self@.any_depth {
                join(self@.base)
            } else {
                render_abs(self@.base)
            },
    {
        let mut out = String::new();
        if self.any_depth {
            push_joined(&mut out, &self.base);
        } else {
            push_abs(&mut out, &self.base);
        }
        out
    }

    /// An absolute pattern from its normalized components.
    pub(crate) fn absolute(base: Vec<Vec<char>>, subtree: bool) -> (r: PathPattern)
        ensures
            r@ == (PatternModel { base: comps_view(base@), subtree, any_depth: false, anchor: None }),
    {
        PathPattern { base, subtree, any_depth: false, anchor: None }
    }

    /// The parent directory of the base, as text: `/` for the root and for a top-level entry; for
    /// the relative suffix of an any-depth pattern, the suffix without its last component.
    pub fn parent_text(&self) -> (r: String)
        ensures
            r@ == if self@.base.len() == 0 {
                seq!['/']
            } else if self@.any_depth {
                join(self@.base.drop_last())
            } else {
                render_abs(self@.base.drop_last())
            },
    {
        let mut out = String::new();
        if self.base.len() == 0 {
            push_char(&mut out, '/');
            assert(out@ =~= seq!['/']);
            return out;
        }
        let mut up = clone_comps(&self.base);
        up.pop();
        assert(comps_view(up@) =~= self@.base.drop_last());
        if self.any_depth {
            push_joined(&mut out, &up);
        } else {
            push_abs(&mut out, &up);
        }
        out
    }

    /// The pattern `/**`: the whole filesystem.
    pub open spec fn root_subtree_model() -> PatternModel {
        PatternModel { base: Seq::empty(), subtree: true, any_depth: false, anchor: None }
    }

    /// The pattern `/**`.
    pub fn root_subtree() -> (r: PathPattern)
        ensures
            r@ == Self::root_subtree_model(),
    {
        let r = PathPattern { base: Vec::new(), subtree: true, any_depth: false, anchor: None };
        assert(r@.base =~= Seq::<Seq<char>>::empty());
        r
    }

    /// The base components.
    pub fn base_comps(&self) -> (r: &Vec<Vec<char>>)
        ensures
            comps_view(r@) == self@.base,
    {
        &self.base
    }

    /// The anchor components of an anchored any-depth pattern.
    pub fn anchor_comps(&self) -> (r: Option<&Vec<Vec<char>>>)
        ensures
            match (r, self@.anchor) {
                (Some(a), Some(b)) => comps_view(a@) == b,
                (None, None) => true,
                _ => false,
            },
    {
        if !self.any_depth {
            return None;
        }
        match &self.anchor {
            Some(a) => Some(a),
            None => None,
        }
    }

    /// A copy of this pattern.
    pub fn copy(&self) -> (r: PathPattern)
        ensures
            r@ == self@,
    {
        let anchor = match &self.anchor {
            Some(a) => Some(clone_comps(a)),
            None => None,
        };
        PathPattern {
            base: clone_comps(&self.base),
            subtree: self.subtree,
            any_depth: self.any_depth,
            anchor,
        }
    }

    pub fn is_subtree(&self) -> (r: bool)
        ensures
            r == self@.subtree,
    {
        self.subtree
    }

    /// True for both any-depth forms, `**/<suffix>` and `<prefix>/**/<suffix>`.
    pub fn is_any_depth(&self) -> (r: bool)
        ensures
            r == self@.any_depth,
    {
        self.any_depth
    }

    /// The absolute prefix of an anchored any-depth pattern, if any.
    pub fn anchor(&self) -> (r: Option<String>)
        ensures
            match (r, self@.anchor) {
                (Some(s), Some(a)) => s@ == render_abs(a),
                (None, None) => true,
                _ => false,
            },
    {
        if !self.any_depth {
            return None;
        }
        match &self.anchor {
            Some(a) => {
                let mut out = String::new();
                push_abs(&mut out, a);
                Some(out)
            },
            None => None,
        }
    }

    /// The canonical text, which round-trips through `parse`.
    pub fn canonical(&self) -> (r: String)
        ensures
            r@ == canonical_model(self@),
    {
        let mut out = String::new();
        if self.any_depth {
            match &self.anchor {
                Some(a) => {
                    push_abs(&mut out, a);
                    push_char(&mut out, '/');
                    push_char(&mut out, '*');
                    push_char(&mut out, '*');
                    push_char(&mut out, '/');
                },
                None => {
                    push_char(&mut out, '*');
                    push_char(&mut out, '*');
                    push_char(&mut out, '/');
                },
            }
            push_joined(&mut out, &self.base);
            if self.subtree {
                push_char(&mut out, '/');
                push_char(&mut out, '*');
                push_char(&mut out, '*');
            }
        } else if self.subtree {
            if self.base.len() == 0 {
                push_char(&mut out, '/');
                push_char(&mut out, '*');
                push_char(&mut out, '*');
            } else {
                push_abs(&mut out, &self.base);
                push_char(&mut out, '/');
                push_char(&mut out, '*');
                push_char(&mut out, '*');
            }
        } else {
            push_abs(&mut out, &self.base);
        }
        assert(out@ =~= canonical_model(self@));
        out
    }

    /// Does this pattern cover `other` -- does it name every path `other` names?
    pub fn covers(&self, other: &PathPattern) -> (r: bool)
        ensures
            r == covers_model(self@, other@),
    {
        if !self.any_depth && !other.any_depth {
            if self.subtree {
                comps_prefix_exec(&self.base, &other.base)
            } else {
                !other.subtree && comps_eq(&self.base, &other.base)
            }
        } else if self.any_depth && other.any_depth {
            let anchor_contained = match (&self.anchor, &other.anchor) {
                (None, _) => true,
                (Some(a), Some(b)) => comps_prefix_exec(a, b),
                (Some(_), None) => false,
            };
            anchor_contained && if self.subtree {
                comps_prefix_exec(&self.base, &other.base)
            } else {
                !other.subtree && comps_eq(&self.base, &other.base)
            }
        } else if !self.any_depth && other.any_depth {
            self.subtree && match &other.anchor {
                Some(a) => comps_prefix_exec(&self.base, a),
                None => self.base.len() == 0,
            }
        } else {
            false
        }
    }

    /// The match relation on a concrete path given by whether it is absolute and its components.
    pub fn matches_components(&self, abs: bool, comps: &Vec<Vec<char>>) -> (r: bool)
        ensures
            r == matches_model(self@, abs, comps_view(comps@)),
    {
        if !self.any_depth {
            return abs && if self.subtree {
                comps_prefix_exec(&self.base, comps)
            } else {
                comps_eq(comps, &self.base)
            };
        }
        let skip: usize = match &self.anchor {
            Some(a) => {
                if abs && comps_prefix_exec(a, comps) {
                    a.len()
                } else {
                    return false;
                }
            },
            None => 0,
        };
        let ghost cv = comps_view(comps@);
        let ghost rem = cv.skip(skip as int);
        assert(cv.len() == comps.len());
        assert(skip <= comps.len());
        assert(self@.anchor is None ==> rem =~= cv);
        let n: usize = self.base.len();
        assert(self@.base.len() == n);
        if n == 0 || comps.len() - skip < n {
            return false;
        }
        assert(matches_model(self@, abs, cv) == if self@.subtree {
            occurs_within(self@.base, rem)
        } else {
            rem.skip(rem.len() - n) == self@.base
        });
        if self.subtree {
            let mut k: usize = skip;
            while k < comps.len() && comps.len() - k >= n
                invariant
                    skip <= k,
                    n == self.base.len(),
                    n <= comps.len() - skip,
                    cv == comps_view(comps@),
                    rem == cv.skip(skip as int),
                    matches_model(self@, abs, cv) == occurs_within(self@.base, rem),
                    forall|j: int|
                        0 <= j < k - skip ==> #[trigger] rem.subrange(j, j + n) != self@.base,
                decreases comps.len() - k,
            {
                if comps_match_at(&self.base, comps, k) {
                    assert(rem.subrange(k - skip, k - skip + n) =~= cv.subrange(
                        k as int,
                        k + n,
                    ));
                    assert(rem.subrange(k - skip, k - skip + self@.base.len()) == self@.base);
                    assert(occurs_within(self@.base, rem));
                    return true;
                }
                assert(rem.subrange(k - skip, k - skip + n) =~= cv.subrange(k as int, k + n));
                k = k + 1;
            }
            assert forall|j: int| 0 <= j && j + n <= rem.len() implies #[trigger] rem.subrange(
                j,
                j + n,
            ) != self@.base by {}
            false
        } else {
            let r = comps_match_at(&self.base, comps, comps.len() - n);
            assert(rem.skip(rem.len() - n) =~= cv.subrange(comps.len() - n, comps.len() as int));
            r
        }
    }

    /// Does this pattern match the concrete path `path` (the kernel's match relation)?
    pub fn matches_path(&self, path: &str) -> (r: bool)
        ensures
            r == matches_model(self@, is_absolute(path@), concrete_comps(path@)),
    {
        let s = chars_of(path);
        let comps = concrete_components(s.as_slice());
        let abs = s.len() > 0 && s[0] == '/';
        self.matches_components(abs, &comps)
    }
}

} // verus!
