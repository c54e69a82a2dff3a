//! How a pattern's text and its components relate: the components parsing yields are normal, and
//! the canonical text of a parsed pattern parses back to the same pattern.

use vstd::prelude::*;
use crate::path::{
    canonical_model, dot, dotdot, find_from, glob_sep, globstar, globstar_slash, has_globstar, join, norm_abs,
    norm_abs_pieces, norm_rel, norm_rel_pieces, parse_model, render_abs, slash, slash_globstar, split_slash,
    strip_subtree, Comps, PatternModel,
};
use crate::text::{ends_with, starts_with};

verus! {

pub open spec fn no_slash(c: Seq<char>) -> bool {
    forall|i: int| 0 <= i < c.len() ==> c[i] != '/'
}

/// A normal component: not empty, no separator, neither `.` nor `..`.
pub open spec fn normal_comp(c: Seq<char>) -> bool {
    c.len() > 0 && no_slash(c) && c != dot() && c != dotdot()
}

pub open spec fn normal_comps(cs: Comps) -> bool {
    forall|i: int| 0 <= i < cs.len() ==> normal_comp(#[trigger] cs[i])
}

proof fn lemma_split_no_slash(s: Seq<char>)
    ensures
        forall|i: int| 0 <= i < split_slash(s).len() ==> no_slash(#[trigger] split_slash(s)[i]),
    decreases s.len(),
{
    if s.len() > 0 {
        lemma_split_no_slash(s.drop_last());
        crate::path::lemma_split_nonempty(s.drop_last());
        let r = split_slash(s.drop_last());
        if s.last() != '/' {
            let u = r.update(r.len() - 1, r.last().push(s.last()));
            assert forall|i: int| 0 <= i < u.len() implies no_slash(#[trigger] u[i]) by {
                if i == r.len() - 1 {
                    assert(no_slash(r[r.len() - 1]));
                }
            }
        } else {
            let u = r.push(Seq::<char>::empty());
            assert forall|i: int| 0 <= i < u.len() implies no_slash(#[trigger] u[i]) by {
                if i < r.len() {
                    assert(u[i] == r[i]);
                }
            }
        }
    }
}

proof fn lemma_norm_abs_normal(pieces: Seq<Seq<char>>)
    requires
        forall|i: int| 0 <= i < pieces.len() ==> no_slash(#[trigger] pieces[i]),
    ensures
        norm_abs_pieces(pieces) matches Some(c) ==> normal_comps(c),
    decreases pieces.len(),
{
    if pieces.len() > 0 {
        let init = pieces.drop_last();
        assert forall|i: int| 0 <= i < init.len() implies no_slash(#[trigger] init[i]) by {
            assert(init[i] == pieces[i]);
        }
        lemma_norm_abs_normal(init);
        assert(no_slash(pieces[pieces.len() - 1]));
        if let Some(a) = norm_abs_pieces(init) {
            let p = pieces.last();
            if !(p.len() == 0 || p == dot() || p == dotdot()) {
                let c = a.push(p);
                assert forall|i: int| 0 <= i < c.len() implies normal_comp(#[trigger] c[i]) by {
                    if i < a.len() {
                        assert(c[i] == a[i]);
                    }
                }
            } else if p == dotdot() && a.len() > 0 {
                let c = a.drop_last();
                assert forall|i: int| 0 <= i < c.len() implies normal_comp(#[trigger] c[i]) by {
                    assert(c[i] == a[i]);
                }
            }
        }
    }
}

proof fn lemma_norm_rel_normal(pieces: Seq<Seq<char>>)
    requires
        forall|i: int| 0 <= i < pieces.len() ==> no_slash(#[trigger] pieces[i]),
    ensures
        norm_rel_pieces(pieces) matches Some(c) ==> normal_comps(c) && !has_globstar(c),
    decreases pieces.len(),
{
    if pieces.len() > 0 {
        let init = pieces.drop_last();
        assert forall|i: int| 0 <= i < init.len() implies no_slash(#[trigger] init[i]) by {
            assert(init[i] == pieces[i]);
        }
        lemma_norm_rel_normal(init);
        assert(no_slash(pieces[pieces.len() - 1]));
        if let Some(a) = norm_rel_pieces(init) {
            let p = pieces.last();
            if !(p.len() == 0 || p == dot() || p == dotdot() || p == globstar()) {
                let c = a.push(p);
                assert forall|i: int| 0 <= i < c.len() implies normal_comp(#[trigger] c[i]) by {
                    if i < a.len() {
                        assert(c[i] == a[i]);
                    }
                }
                assert forall|k: int| 0 <= k < c.len() implies c[k] != globstar() by {
                    if k < a.len() {
                        assert(c[k] == a[k]);
                    }
                }
            }
        }
    }
}

proof fn lemma_norm_abs_of(s: Seq<char>)
    ensures
        norm_abs(s) matches Some(c) ==> normal_comps(c),
{
    lemma_split_no_slash(s);
    lemma_norm_abs_normal(split_slash(s));
}

proof fn lemma_norm_rel_of(s: Seq<char>)
    ensures
        norm_rel(s) matches Some(c) ==> normal_comps(c) && !has_globstar(c) && c.len() > 0,
{
    lemma_split_no_slash(s);
    lemma_norm_rel_normal(split_slash(s));
}

/// Parsing yields normal components: an absolute pattern's base is a rooted path with no empty,
/// `.` or `..` component; an any-depth pattern's suffix has at least one component, all normal and
/// none `**`; an anchor is normal and holds no `**`.
pub proof fn parsed_components_are_normal(s: Seq<char>)
    ensures
        parse_model(s) matches Ok(p) ==> {
            &&& normal_comps(p.base)
            &&& p.any_depth ==> p.base.len() > 0 && !has_globstar(p.base)
            &&& p.anchor matches Some(a) ==> normal_comps(a) && !has_globstar(a) && a.len() > 0
        },
{
    if parse_model(s) is Ok {
        if starts_with(s, globstar_slash()) {
            lemma_norm_rel_of(strip_subtree(s.skip(3)).0);
        } else {
            match find_from(s, glob_sep(), 0) {
                Some(k) => {
                    lemma_norm_rel_of(strip_subtree(s.skip(k + 4)).0);
                    let prefix = s.take(k);
                    let anchor_src = if prefix.len() == 0 { slash() } else { prefix };
                    lemma_norm_abs_of(anchor_src);
                },
                None => {
                    let (path_part, subtree) = if s == slash_globstar() {
                        (slash(), true)
                    } else {
                        strip_subtree(s)
                    };
                    lemma_norm_abs_of(path_part);
                },
            }
        }
    }
}

proof fn lemma_split_single(t: Seq<char>)
    requires
        no_slash(t),
    ensures
        split_slash(t) == seq![t],
    decreases t.len(),
{
    if t.len() == 0 {
        assert(t =~= Seq::<char>::empty());
    } else {
        let u = t.drop_last();
        assert(no_slash(u));
        lemma_split_single(u);
        assert(t.last() == t[t.len() - 1]);
        assert(t[t.len() - 1] != '/');
        assert(u.push(t.last()) =~= t);
        assert(split_slash(t) =~= seq![t]);
    }
}

proof fn lemma_split_append(x: Seq<char>, t: Seq<char>)
    requires
        no_slash(t),
    ensures
        split_slash(x + slash() + t) == split_slash(x).push(t),
    decreases t.len(),
{
    let s = x + slash() + t;
    if t.len() == 0 {
        assert(t =~= Seq::<char>::empty());
        assert(s.drop_last() =~= x);
        assert(s.last() == '/');
    } else {
        let u = t.drop_last();
        assert(no_slash(u));
        lemma_split_append(x, u);
        assert(s.drop_last() =~= x + slash() + u);
        assert(s.last() == t[t.len() - 1]);
        assert(t[t.len() - 1] != '/');
        assert(u.push(t.last()) =~= t);
        assert(split_slash(s) =~= split_slash(x).push(t));
    }
}

pub open spec fn comps_no_slash(c: Comps) -> bool {
    forall|i: int| 0 <= i < c.len() ==> no_slash(#[trigger] c[i])
}

proof fn lemma_split_join(c: Comps)
    requires
        c.len() >= 1,
        comps_no_slash(c),
    ensures
        split_slash(join(c)) == c,
    decreases c.len(),
{
    if c.len() == 1 {
        assert(no_slash(c[0]));
        lemma_split_single(c[0]);
        assert(split_slash(join(c)) =~= c);
    } else {
        let init = c.drop_last();
        assert(comps_no_slash(init)) by {
            assert forall|i: int| 0 <= i < init.len() implies no_slash(#[trigger] init[i]) by {
                assert(init[i] == c[i]);
            }
        }
        lemma_split_join(init);
        assert(no_slash(c[c.len() - 1]));
        lemma_split_append(join(init), c.last());
        assert(split_slash(join(c)) =~= c);
    }
}

proof fn lemma_split_prefixed(x: Seq<char>, c: Comps)
    requires
        c.len() >= 1,
        comps_no_slash(c),
    ensures
        split_slash(x + slash() + join(c)) == split_slash(x) + c,
    decreases c.len(),
{
    if c.len() == 1 {
        assert(no_slash(c[0]));
        lemma_split_append(x, c[0]);
        assert(split_slash(x).push(c[0]) =~= split_slash(x) + c);
    } else {
        let init = c.drop_last();
        assert(comps_no_slash(init)) by {
            assert forall|i: int| 0 <= i < init.len() implies no_slash(#[trigger] init[i]) by {
                assert(init[i] == c[i]);
            }
        }
        lemma_split_prefixed(x, init);
        assert(no_slash(c[c.len() - 1]));
        lemma_split_append(x + slash() + join(init), c.last());
        assert(x + slash() + join(c) =~= (x + slash() + join(init)) + slash() + c.last());
        assert((split_slash(x) + init).push(c.last()) =~= split_slash(x) + c);
    }
}

proof fn lemma_normal_no_slash(c: Comps)
    requires
        normal_comps(c),
    ensures
        comps_no_slash(c),
{
    assert forall|i: int| 0 <= i < c.len() implies no_slash(#[trigger] c[i]) by {
        assert(normal_comp(c[i]));
    }
}

proof fn lemma_norm_abs_rendered(c: Comps)
    requires
        normal_comps(c),
    ensures
        norm_abs(render_abs(c)) == Some(c),
    decreases c.len(),
{
    lemma_normal_no_slash(c);
    let e = Seq::<char>::empty();
    if c.len() == 0 {
        assert(c =~= Seq::<Seq<char>>::empty());
        assert(render_abs(c) =~= e + slash() + e);
        lemma_split_append(e, e);
        assert(split_slash(e).push(e) =~= seq![e, e]);
        let ps = seq![e, e];
        assert(ps.drop_last() =~= seq![e]);
        assert(seq![e].drop_last() =~= Seq::<Seq<char>>::empty());
        assert(norm_abs_pieces(Seq::<Seq<char>>::empty()) == Some(Seq::<Seq<char>>::empty()));
        assert(norm_abs_pieces(seq![e]) == Some(Seq::<Seq<char>>::empty()));
        assert(norm_abs_pieces(ps) == Some(Seq::<Seq<char>>::empty()));
        assert(split_slash(render_abs(c)) == ps);
    } else {
        assert(render_abs(c) =~= e + slash() + join(c));
        lemma_split_prefixed(e, c);
        assert(split_slash(e) =~= seq![e]);
        assert(split_slash(render_abs(c)) == seq![e] + c);
        lemma_norm_abs_pieces_prefixed(c);
    }
}

proof fn lemma_norm_abs_pieces_prefixed(c: Comps)
    requires
        normal_comps(c),
    ensures
        norm_abs_pieces(seq![Seq::<char>::empty()] + c) == Some(c),
    decreases c.len(),
{
    let e = Seq::<char>::empty();
    if c.len() == 0 {
        assert(c =~= Seq::<Seq<char>>::empty());
        assert(seq![e] + c =~= seq![e]);
        assert(seq![e].drop_last() =~= Seq::<Seq<char>>::empty());
        assert(norm_abs_pieces(Seq::<Seq<char>>::empty()) == Some(Seq::<Seq<char>>::empty()));
        assert(norm_abs_pieces(seq![e]) == Some(Seq::<Seq<char>>::empty()));
    } else {
        let init = c.drop_last();
        assert(normal_comps(init)) by {
            assert forall|i: int| 0 <= i < init.len() implies normal_comp(#[trigger] init[i]) by {
                assert(init[i] == c[i]);
            }
        }
        lemma_norm_abs_pieces_prefixed(init);
        let ps = seq![e] + c;
        assert(ps.drop_last() =~= seq![e] + init);
        assert(ps.last() == c.last());
        assert(normal_comp(c[c.len() - 1]));
        assert(init.push(c.last()) =~= c);
        assert(norm_abs_pieces(ps) == crate::path::abs_step(norm_abs_pieces(ps.drop_last()), ps.last()));
    }
}

proof fn lemma_norm_rel_pieces_same(c: Comps)
    requires
        normal_comps(c),
        !has_globstar(c),
    ensures
        norm_rel_pieces(c) == Some(c),
    decreases c.len(),
{
    if c.len() > 0 {
        let init = c.drop_last();
        assert(normal_comps(init)) by {
            assert forall|i: int| 0 <= i < init.len() implies normal_comp(#[trigger] init[i]) by {
                assert(init[i] == c[i]);
            }
        }
        assert(!has_globstar(init)) by {
            if has_globstar(init) {
                let k = choose|k: int| 0 <= k < init.len() && init[k] == globstar();
                assert(c[k] == init[k]);
            }
        }
        lemma_norm_rel_pieces_same(init);
        assert(normal_comp(c[c.len() - 1]));
        assert(c[c.len() - 1] != globstar());
        assert(init.push(c.last()) =~= c);
    }
}

proof fn lemma_join_first(c: Comps)
    requires
        c.len() >= 1,
        c[0].len() > 0,
    ensures
        join(c).len() > 0,
        join(c)[0] == c[0][0],
    decreases c.len(),
{
    if c.len() > 1 {
        let init = c.drop_last();
        assert(init[0] == c[0]);
        lemma_join_first(init);
    }
}

proof fn lemma_norm_rel_joined(c: Comps)
    requires
        c.len() >= 1,
        normal_comps(c),
        !has_globstar(c),
    ensures
        norm_rel(join(c)) == Some(c),
{
    lemma_normal_no_slash(c);
    assert(normal_comp(c[0]));
    lemma_join_first(c);
    assert(c[0][0] != '/');
    lemma_split_join(c);
    lemma_norm_rel_pieces_same(c);
}

pub open spec fn sep_at(s: Seq<char>, k: int) -> bool {
    0 <= k && k + 4 <= s.len() && s.subrange(k, k + 4) == glob_sep()
}

pub open spec fn no_sep(s: Seq<char>) -> bool {
    forall|k: int| !#[trigger] sep_at(s, k)
}

proof fn lemma_find_none(s: Seq<char>, i: int)
    requires
        0 <= i,
        forall|k: int| i <= k ==> !#[trigger] sep_at(s, k),
    ensures
        find_from(s, glob_sep(), i) is None,
    decreases s.len() - i,
{
    if i + 4 <= s.len() {
        assert(!sep_at(s, i));
        lemma_find_none(s, i + 1);
    }
}

proof fn lemma_find_at(s: Seq<char>, i: int, l: int)
    requires
        0 <= i <= l,
        forall|k: int| i <= k < l ==> !#[trigger] sep_at(s, k),
        sep_at(s, l),
    ensures
        find_from(s, glob_sep(), i) == Some(l),
    decreases l - i,
{
    if i < l {
        assert(!sep_at(s, i));
        lemma_find_at(s, i + 1, l);
    }
}

proof fn lemma_find_none_no_sep(s: Seq<char>, i: int)
    requires
        0 <= i,
        find_from(s, glob_sep(), i) is None,
    ensures
        forall|k: int| i <= k ==> !#[trigger] sep_at(s, k),
    decreases s.len() - i,
{
    if i + 4 <= s.len() {
        lemma_find_none_no_sep(s, i + 1);
    }
}

proof fn lemma_sep_extend(r: Seq<char>, x: Seq<char>)
    requires
        no_sep(r),
        !ends_with(r, slash_globstar()),
        no_slash(x),
    ensures
        no_sep(r + slash() + x),
{
    let s = r + slash() + x;
    let l = r.len() as int;
    assert forall|k: int| !#[trigger] sep_at(s, k) by {
        if sep_at(s, k) {
            assert(s.subrange(k, k + 4)[3] == '/');
            assert(s[k + 3] == '/');
            if k + 4 <= l {
                assert(r.subrange(k, k + 4) =~= s.subrange(k, k + 4));
                assert(sep_at(r, k));
            } else if k + 3 > l {
                assert(s[k + 3] == x[k + 3 - l - 1]);
            } else {
                assert(k == l - 3);
                assert(r.skip(l - 3) =~= s.subrange(k, k + 3));
                assert(s.subrange(k, k + 3) =~= glob_sep().take(3));
                assert(glob_sep().take(3) =~= slash_globstar());
            }
        }
    }
}

proof fn lemma_ends_extend(r: Seq<char>, x: Seq<char>)
    requires
        normal_comp(x),
        x != globstar(),
    ensures
        !ends_with(r + slash() + x, slash_globstar()),
{
    let s = r + slash() + x;
    let n = s.len() as int;
    if ends_with(s, slash_globstar()) {
        assert(s.skip(n - 3)[0] == '/');
        assert(s[n - 3] == '/');
        assert(s[n - 2] == '*');
        assert(s[n - 1] == '*');
        if x.len() >= 3 {
            assert(s[n - 3] == x[x.len() - 3]);
        } else if x.len() == 2 {
            assert(x[0] == s[n - 2]);
            assert(x[1] == s[n - 1]);
            assert(x =~= globstar());
        } else {
            assert(s[n - 2] == '/');
        }
    }
}

/// The rendering of normal, globstar-free components holds no `/**/` and does not end in `/**`.
proof fn lemma_render_clean(c: Comps)
    requires
        normal_comps(c),
        !has_globstar(c),
    ensures
        no_sep(render_abs(c)),
        !ends_with(render_abs(c), slash_globstar()),
        render_abs(c).len() >= 1,
        render_abs(c)[0] == '/',
        c.len() > 0 ==> render_abs(c).len() >= 2,
    decreases c.len(),
{
    let e = Seq::<char>::empty();
    if c.len() == 0 {
        assert(render_abs(c) =~= slash());
        assert forall|k: int| !#[trigger] sep_at(render_abs(c), k) by {}
    } else {
        let init = c.drop_last();
        let x = c.last();
        assert(normal_comp(c[c.len() - 1]));
        assert(c[c.len() - 1] != globstar());
        assert(normal_comps(init)) by {
            assert forall|i: int| 0 <= i < init.len() implies normal_comp(#[trigger] init[i]) by {
                assert(init[i] == c[i]);
            }
        }
        assert(!has_globstar(init)) by {
            if has_globstar(init) {
                let k = choose|k: int| 0 <= k < init.len() && init[k] == globstar();
                assert(c[k] == init[k]);
            }
        }
        if c.len() == 1 {
            assert(render_abs(c) =~= e + slash() + x);
            assert forall|k: int| !#[trigger] sep_at(e, k) by {}
            lemma_sep_extend(e, x);
            lemma_ends_extend(e, x);
        } else {
            lemma_render_clean(init);
            assert(render_abs(c) =~= render_abs(init) + slash() + x);
            lemma_sep_extend(render_abs(init), x);
            lemma_ends_extend(render_abs(init), x);
        }
    }
}

proof fn lemma_split_last_after_slash(u: Seq<char>)
    ensures
        split_slash(u).len() >= 2 ==> {
            let w = split_slash(u).last();
            &&& w.len() + 1 <= u.len()
            &&& u[u.len() - w.len() - 1] == '/'
            &&& u.skip(u.len() - w.len()) == w
        },
    decreases u.len(),
{
    if u.len() > 0 {
        let v = u.drop_last();
        lemma_split_last_after_slash(v);
        crate::path::lemma_split_nonempty(v);
        let r = split_slash(v);
        if u.last() == '/' {
            assert(split_slash(u).last() =~= Seq::<char>::empty());
            assert(u.skip(u.len() as int) =~= Seq::<char>::empty());
        } else if r.len() >= 2 {
            let w = r.last();
            assert(split_slash(u).last() == w.push(u.last()));
            assert(u[u.len() - w.len() - 2] == v[v.len() - w.len() - 1]);
            assert(u.skip(u.len() - w.len() - 1) =~= v.skip(v.len() - w.len()).push(u.last()));
        }
    }
}

proof fn lemma_split_first_prefix(t: Seq<char>)
    ensures
        split_slash(t)[0].len() <= t.len(),
        t.take(split_slash(t)[0].len() as int) == split_slash(t)[0],
    decreases t.len(),
{
    crate::path::lemma_split_nonempty(t);
    if t.len() == 0 {
        assert(t.take(0) =~= split_slash(t)[0]);
    } else {
        let u = t.drop_last();
        lemma_split_first_prefix(u);
        crate::path::lemma_split_nonempty(u);
        let r = split_slash(u);
        let f = r[0];
        if t.last() == '/' || r.len() >= 2 {
            assert(split_slash(t)[0] == f);
            assert(t.take(f.len() as int) =~= u.take(f.len() as int));
        } else {
            assert(r.len() == 1);
            lemma_split_first_prefix_single(u);
            assert(split_slash(t)[0] == f.push(t.last()));
            assert(t.take(f.len() as int + 1) =~= u.take(f.len() as int).push(t.last()));
        }
    }
}

proof fn lemma_split_first_prefix_single(u: Seq<char>)
    ensures
        split_slash(u).len() == 1 ==> split_slash(u)[0] == u,
    decreases u.len(),
{
    if u.len() == 0 {
        assert(split_slash(u)[0] =~= u);
    } else {
        let v = u.drop_last();
        lemma_split_first_prefix_single(v);
        crate::path::lemma_split_nonempty(v);
        if u.last() != '/' && split_slash(v).len() == 1 {
            assert(split_slash(u)[0] =~= v.push(u.last()));
            assert(v.push(u.last()) =~= u);
        }
    }
}

proof fn lemma_interior_pieces(t: Seq<char>)
    requires
        no_sep(t),
    ensures
        forall|i: int| 1 <= i < split_slash(t).len() - 1 ==> #[trigger] split_slash(t)[i] != globstar(),
    decreases t.len(),
{
    if t.len() > 0 {
        let u = t.drop_last();
        assert(no_sep(u)) by {
            assert forall|k: int| !#[trigger] sep_at(u, k) by {
                if sep_at(u, k) {
                    assert(t.subrange(k, k + 4) =~= u.subrange(k, k + 4));
                    assert(sep_at(t, k));
                }
            }
        }
        lemma_interior_pieces(u);
        crate::path::lemma_split_nonempty(u);
        let r = split_slash(u);
        if t.last() == '/' {
            let n = u.len() as int;
            assert forall|i: int| 1 <= i < split_slash(t).len() - 1 implies #[trigger] split_slash(t)[i] != globstar() by {
                assert(split_slash(t)[i] == r[i]);
                if i == r.len() - 1 && r[i] == globstar() {
                    lemma_split_last_after_slash(u);
                    assert(r.last() == globstar());
                    assert(u[n - 3] == '/');
                    assert(u.skip(n - 2)[0] == u[n - 2]);
                    assert(u.skip(n - 2)[1] == u[n - 1]);
                    assert(t.subrange(n - 3, n + 1) =~= glob_sep());
                    assert(sep_at(t, n - 3));
                }
            }
        } else {
            assert forall|i: int| 1 <= i < split_slash(t).len() - 1 implies #[trigger] split_slash(t)[i] != globstar() by {
                assert(split_slash(t)[i] == r[i]);
            }
        }
    }
}

proof fn lemma_norm_abs_from_pieces(pieces: Seq<Seq<char>>)
    ensures
        norm_abs_pieces(pieces) matches Some(c) ==> forall|j: int| 0 <= j < c.len() ==> exists|i: int| 0 <= i < pieces.len() && pieces[i] == #[trigger] c[j],
    decreases pieces.len(),
{
    if pieces.len() > 0 {
        let init = pieces.drop_last();
        lemma_norm_abs_from_pieces(init);
        if let Some(c) = norm_abs_pieces(pieces) {
            let a = norm_abs_pieces(init)->0;
            assert forall|j: int| 0 <= j < c.len() implies exists|i: int| 0 <= i < pieces.len() && pieces[i] == #[trigger] c[j] by {
                if j < a.len() && c[j] == a[j] {
                    let i = choose|i: int| 0 <= i < init.len() && init[i] == a[j];
                    assert(pieces[i] == init[i]);
                } else {
                    assert(pieces[pieces.len() - 1] == c[j]);
                }
            }
        }
    }
}

/// An absolute path with no `/**/` in it and no trailing `/**` normalizes to globstar-free
/// components.
proof fn lemma_abs_no_globstar(t: Seq<char>)
    requires
        t.len() > 0,
        t[0] == '/',
        no_sep(t),
        !ends_with(t, slash_globstar()),
    ensures
        norm_abs(t) matches Some(c) ==> !has_globstar(c),
{
    let ps = split_slash(t);
    crate::path::lemma_split_nonempty(t);
    lemma_interior_pieces(t);
    lemma_split_no_slash(t);
    lemma_split_first_prefix(t);
    lemma_split_last_after_slash(t);
    lemma_norm_abs_from_pieces(ps);
    assert(ps[0] != globstar()) by {
        if ps[0].len() > 0 {
            assert(ps[0][0] == t[0]);
            assert(no_slash(ps[0]));
        }
    }
    if ps.len() >= 2 && ps.last() == globstar() {
        let n = t.len() as int;
        assert(t.skip(n - 2)[0] == t[n - 2]);
        assert(t.skip(n - 2)[1] == t[n - 1]);
        assert(t.skip(n - 3) =~= slash_globstar());
    }
    assert forall|i: int| 0 <= i < ps.len() implies #[trigger] ps[i] != globstar() by {
        if 1 <= i < ps.len() - 1 {
        } else if i == ps.len() - 1 && i >= 1 {
            assert(ps[i] == ps.last());
        }
    }
    if let Some(c) = norm_abs(t) {
        if has_globstar(c) {
            let k = choose|k: int| 0 <= k < c.len() && c[k] == globstar();
            let i = choose|i: int| 0 <= i < ps.len() && ps[i] == c[k];
        }
    }
}

proof fn lemma_no_sep_prefix(s: Seq<char>, n: int)
    requires
        0 <= n <= s.len(),
        no_sep(s),
    ensures
        no_sep(s.take(n)),
{
    assert forall|k: int| !#[trigger] sep_at(s.take(n), k) by {
        if sep_at(s.take(n), k) {
            assert(s.subrange(k, k + 4) =~= s.take(n).subrange(k, k + 4));
            assert(sep_at(s, k));
        }
    }
}

/// A parsed absolute pattern holds no `**` component.
proof fn lemma_parsed_absolute_no_globstar(s: Seq<char>)
    ensures
        parse_model(s) matches Ok(p) ==> (!p.any_depth ==> !has_globstar(p.base)),
{
    if let Ok(p) = parse_model(s) {
        if !p.any_depth {
            assert(!starts_with(s, globstar_slash()));
            assert(find_from(s, glob_sep(), 0) is None);
            lemma_find_none_no_sep(s, 0);
            assert(no_sep(s));
            if s == slash_globstar() {
                lemma_norm_abs_rendered(Seq::<Seq<char>>::empty());
                assert(render_abs(Seq::<Seq<char>>::empty()) =~= slash());
            } else {
                let n = s.len() as int;
                let (path_part, subtree) = strip_subtree(s);
                if subtree {
                    lemma_no_sep_prefix(s, n - 3);
                    assert(path_part == s.take(n - 3));
                    if ends_with(path_part, slash_globstar()) {
                        let m = path_part.len() as int;
                        assert(path_part.skip(m - 3)[0] == s[n - 6]);
                        assert(path_part.skip(m - 3)[1] == s[n - 5]);
                        assert(path_part.skip(m - 3)[2] == s[n - 4]);
                        assert(s.skip(n - 3)[0] == s[n - 3]);
                        assert(s.subrange(n - 6, n - 2) =~= glob_sep());
                        assert(sep_at(s, n - 6));
                    }
                }
                assert(path_part[0] == s[0]);
                lemma_abs_no_globstar(path_part);
            }
        }
    }
}

proof fn lemma_join_clean(c: Comps)
    requires
        c.len() >= 1,
        normal_comps(c),
        !has_globstar(c),
    ensures
        !ends_with(join(c), slash_globstar()),
        join(c).len() > 0,
        join(c)[0] != '/',
        join(c) != globstar(),
{
    lemma_render_clean(c);
    let j = join(c);
    let r = render_abs(c);
    assert(normal_comp(c[0]));
    lemma_join_first(c);
    if ends_with(j, slash_globstar()) {
        assert(r.skip(r.len() - 3) =~= j.skip(j.len() - 3));
    }
    if c.len() >= 2 {
        let init = c.drop_last();
        assert(init[0] == c[0]);
        lemma_join_first(init);
        assert(normal_comp(c[c.len() - 1]));
        assert(j.len() >= 3);
    } else {
        assert(j == c[0]);
        assert(c[0] != globstar());
    }
}

/// The parse of a tail `join(base)` or `join(base) + "/**"`.
proof fn lemma_tail_parses(base: Comps, subtree: bool)
    requires
        base.len() >= 1,
        normal_comps(base),
        !has_globstar(base),
    ensures
        ({
            let tail = if subtree { join(base) + slash_globstar() } else { join(base) };
            &&& strip_subtree(tail) == (join(base), subtree)
            &&& norm_rel(join(base)) == Some(base)
            &&& join(base).len() > 0
            &&& join(base) != globstar()
        }),
{
    lemma_join_clean(base);
    lemma_norm_rel_joined(base);
    let j = join(base);
    if subtree {
        let t = j + slash_globstar();
        assert(t.skip(t.len() - 3) =~= slash_globstar());
        assert(t.take(t.len() - 3) =~= j);
    }
}

/// Well-formed components for a pattern, as parsing produces them.
pub open spec fn parsed_shape(p: PatternModel) -> bool {
    &&& normal_comps(p.base)
    &&& !has_globstar(p.base)
    &&& p.any_depth ==> p.base.len() > 0
    &&& !p.any_depth ==> p.anchor is None
    &&& p.anchor matches Some(a) ==> normal_comps(a) && !has_globstar(a) && a.len() > 0
}

proof fn lemma_round_trip_unanchored(p: PatternModel)
    requires
        parsed_shape(p),
        p.any_depth,
        p.anchor is None,
    ensures
        parse_model(canonical_model(p)) == Ok::<PatternModel, crate::path::PathErrorModel>(p),
{
    let t = canonical_model(p);
    lemma_tail_parses(p.base, p.subtree);
    let tail = if p.subtree { join(p.base) + slash_globstar() } else { join(p.base) };
    assert(t == globstar_slash() + tail);
    assert(t.take(3) =~= globstar_slash());
    assert(t.skip(3) =~= tail);
}

proof fn lemma_first_sep_at_anchor_end(r: Seq<char>, tail: Seq<char>)
    requires
        no_sep(r),
        !ends_with(r, slash_globstar()),
    ensures
        find_from(r + glob_sep() + tail, glob_sep(), 0) == Some(r.len() as int),
{
    let t = r + glob_sep() + tail;
    let l = r.len() as int;
    assert(t.subrange(l, l + 4) =~= glob_sep());
    assert forall|k: int| 0 <= k < l implies !#[trigger] sep_at(t, k) by {
        if sep_at(t, k) {
            assert(t.subrange(k, k + 4)[3] == t[k + 3]);
            assert(t.subrange(k, k + 4)[2] == t[k + 2]);
            assert(t.subrange(k, k + 4)[1] == t[k + 1]);
            if k + 4 <= l {
                assert(r.subrange(k, k + 4) =~= t.subrange(k, k + 4));
                assert(sep_at(r, k));
            } else if k == l - 1 {
                assert(t[k + 1] == '/');
            } else if k == l - 2 {
                assert(t[k + 2] == '/');
            } else {
                assert(k == l - 3);
                assert(r.skip(l - 3) =~= t.subrange(k, k + 3));
                assert(t.subrange(k, k + 3) =~= slash_globstar());
            }
        }
    }
    lemma_find_at(t, 0, l);
}

proof fn lemma_round_trip_anchored(p: PatternModel, a: Comps)
    requires
        parsed_shape(p),
        p.any_depth,
        p.anchor == Some(a),
    ensures
        parse_model(canonical_model(p)) == Ok::<PatternModel, crate::path::PathErrorModel>(p),
{
    let t = canonical_model(p);
    lemma_tail_parses(p.base, p.subtree);
    let tail = if p.subtree { join(p.base) + slash_globstar() } else { join(p.base) };
    let r = render_abs(a);
    let l = r.len() as int;
    lemma_render_clean(a);
    lemma_norm_abs_rendered(a);
    assert(t == r + glob_sep() + tail);
    assert(t[0] == '/');
    assert(!starts_with(t, globstar_slash())) by {
        if starts_with(t, globstar_slash()) {
            assert(t.take(3)[0] == t[0]);
        }
    }
    lemma_first_sep_at_anchor_end(r, tail);
    assert(t.take(l) =~= r);
    assert(t.skip(l + 4) =~= tail);
}

proof fn lemma_round_trip_absolute(p: PatternModel)
    requires
        parsed_shape(p),
        !p.any_depth,
    ensures
        parse_model(canonical_model(p)) == Ok::<PatternModel, crate::path::PathErrorModel>(p),
{
    let t = canonical_model(p);
    if p.subtree && p.base.len() == 0 {
        assert(t == slash_globstar());
        lemma_norm_abs_rendered(p.base);
        assert(render_abs(p.base) =~= slash());
        assert(p.base =~= Seq::<Seq<char>>::empty());
    } else {
        let r = render_abs(p.base);
        lemma_render_clean(p.base);
        lemma_norm_abs_rendered(p.base);
        if p.subtree {
            assert(t == r + slash() + globstar());
            assert(no_slash(globstar()));
            lemma_sep_extend(r, globstar());
            assert(t.skip(t.len() - 3) =~= slash_globstar());
            assert(t.take(t.len() - 3) =~= r);
        } else {
            assert(t == r);
            assert(t != slash_globstar()) by {
                assert(slash_globstar().skip(0) =~= slash_globstar());
            }
        }
        lemma_find_none(t, 0);
        assert(!starts_with(t, globstar_slash())) by {
            if starts_with(t, globstar_slash()) {
                assert(t.take(3)[0] == t[0]);
            }
        }
    }
}

/// The canonical text of a parsed pattern parses back to that same pattern.
pub proof fn canonical_text_parses_back(s: Seq<char>)
    ensures
        parse_model(s) matches Ok(p) ==> parse_model(canonical_model(p)) == Ok::<PatternModel, crate::path::PathErrorModel>(p),
{
    if let Ok(p) = parse_model(s) {
        parsed_components_are_normal(s);
        crate::path_set::parsed_patterns_are_well_formed(s);
        lemma_parsed_absolute_no_globstar(s);
        if !p.any_depth {
            lemma_round_trip_absolute(p);
        } else {
            match p.anchor {
                None => lemma_round_trip_unanchored(p),
                Some(a) => lemma_round_trip_anchored(p, a),
            }
        }
    }
}

/// The canonical text identifies a parsed pattern: two parsed patterns are equal exactly when
/// their canonical texts are.
pub proof fn canonical_text_identifies_the_pattern(s1: Seq<char>, s2: Seq<char>)
    ensures
        parse_model(s1) matches Ok(p) ==> (parse_model(s2) matches Ok(q) ==> (p == q <==> canonical_model(p) == canonical_model(q))),
{
    canonical_text_parses_back(s1);
    canonical_text_parses_back(s2);
}

/// A parsed pattern is any-depth exactly when its canonical text starts with `**/` or holds
/// `/**/`.
pub proof fn any_depth_shows_in_the_text(s: Seq<char>)
    ensures
        parse_model(s) matches Ok(p) ==> (p.any_depth <==> (starts_with(canonical_model(p), globstar_slash())
            || exists|k: int| sep_at(canonical_model(p), k))),
{
    if let Ok(p) = parse_model(s) {
        parsed_components_are_normal(s);
        crate::path_set::parsed_patterns_are_well_formed(s);
        lemma_parsed_absolute_no_globstar(s);
        let t = canonical_model(p);
        if p.any_depth {
            match p.anchor {
                None => {
                    assert(t.take(3) =~= globstar_slash());
                },
                Some(a) => {
                    let r = render_abs(a);
                    let tail = if p.subtree { join(p.base) + slash_globstar() } else { join(p.base) };
                    assert(t == r + glob_sep() + tail);
                    assert(t.subrange(r.len() as int, r.len() as int + 4) =~= glob_sep());
                    assert(sep_at(t, r.len() as int));
                },
            }
        } else {
            if p.subtree && p.base.len() == 0 {
                assert(t == slash_globstar());
                assert forall|k: int| !#[trigger] sep_at(t, k) by {}
            } else {
                let r = render_abs(p.base);
                lemma_render_clean(p.base);
                if p.subtree {
                    assert(t == r + slash() + globstar());
                    assert(no_slash(globstar()));
                    lemma_sep_extend(r, globstar());
                } else {
                    assert(t == r);
                }
            }
            assert(t[0] == '/');
            assert(!starts_with(t, globstar_slash())) by {
                if starts_with(t, globstar_slash()) {
                    assert(t.take(3)[0] == t[0]);
                }
            }
        }
    }
}

/// The base text of a parsed pattern: for an absolute pattern a rooted path whose normalization
/// gives back its components (none empty, `.` or `..`); for an any-depth pattern a relative path
/// of at least one component, which splits back into those components, none of them `**`.
pub proof fn parsed_base_text(s: Seq<char>)
    ensures
        parse_model(s) matches Ok(p) ==> {
            &&& !p.any_depth ==> render_abs(p.base)[0] == '/' && norm_abs(render_abs(p.base)) == Some(p.base) && normal_comps(p.base)
            &&& p.any_depth ==> {
                &&& join(p.base).len() > 0
                &&& join(p.base)[0] != '/'
                &&& split_slash(join(p.base)) == p.base
                &&& p.base.len() >= 1
                &&& normal_comps(p.base)
                &&& !has_globstar(p.base)
            }
        },
{
    if let Ok(p) = parse_model(s) {
        parsed_components_are_normal(s);
        if p.any_depth {
            lemma_join_clean(p.base);
            lemma_normal_no_slash(p.base);
            lemma_split_join(p.base);
        } else {
            lemma_norm_abs_rendered(p.base);
            assert((slash() + join(p.base))[0] == '/');
        }
    }
}

} // verus!
