//! The canonical order on path patterns and canonical pattern sets: sorted, deduplicated, and
//! with every pattern dropped that another pattern of the set covers.

use vstd::prelude::*;
use crate::path::{comps_eq, comps_prefix, comps_view, covers_model, matches_model, occurs_within, parse_model, Comps, PathPattern, PatternModel};
use crate::text::{chars_less, chars_lt, lemma_chars_lt_asymmetric, lemma_chars_lt_irreflexive, lemma_chars_lt_total, lemma_chars_lt_transitive};

verus! {

/// Lexicographic order on component lists, components compared as strings (the order of
/// `Path` components below a common root).
pub open spec fn comps_lt(a: Comps, b: Comps) -> bool
    decreases a.len(),
{
    if b.len() == 0 {
        false
    } else if a.len() == 0 {
        true
    } else if chars_lt(a[0], b[0]) {
        true
    } else if a[0] == b[0] {
        comps_lt(a.drop_first(), b.drop_first())
    } else {
        false
    }
}

pub proof fn lemma_comps_lt_irreflexive(a: Comps)
    ensures
        !comps_lt(a, a),
    decreases a.len(),
{
    if a.len() > 0 {
        lemma_chars_lt_irreflexive(a[0]);
        lemma_comps_lt_irreflexive(a.drop_first());
    }
}

pub proof fn lemma_comps_lt_transitive(a: Comps, b: Comps, c: Comps)
    requires
        comps_lt(a, b),
        comps_lt(b, c),
    ensures
        comps_lt(a, c),
    decreases a.len(),
{
    if a.len() > 0 && b.len() > 0 && c.len() > 0 {
        if chars_lt(a[0], b[0]) && chars_lt(b[0], c[0]) {
            lemma_chars_lt_transitive(a[0], b[0], c[0]);
        } else if a[0] == b[0] && b[0] == c[0] {
            lemma_comps_lt_transitive(a.drop_first(), b.drop_first(), c.drop_first());
        }
    }
}

pub proof fn lemma_comps_lt_total(a: Comps, b: Comps)
    ensures
        a == b || comps_lt(a, b) || comps_lt(b, a),
    decreases a.len(),
{
    if a.len() > 0 && b.len() > 0 {
        lemma_chars_lt_total(a[0], b[0]);
        if a[0] == b[0] {
            lemma_comps_lt_total(a.drop_first(), b.drop_first());
            if a.drop_first() == b.drop_first() {
                assert(a =~= seq![a[0]] + a.drop_first());
                assert(b =~= seq![b[0]] + b.drop_first());
            }
        }
    } else if a.len() == 0 && b.len() == 0 {
        assert(a =~= b);
    }
}

pub proof fn lemma_comps_lt_asymmetric(a: Comps, b: Comps)
    requires
        comps_lt(a, b),
    ensures
        !comps_lt(b, a),
{
    if comps_lt(b, a) {
        lemma_comps_lt_transitive(a, b, a);
        lemma_comps_lt_irreflexive(a);
    }
}

/// The canonical order on patterns: plain (absolute) patterns before any-depth ones, then by
/// base, literal before subtree, and unanchored before anchored.
pub open spec fn pat_lt(p: PatternModel, q: PatternModel) -> bool {
    if p.any_depth != q.any_depth {
        !p.any_depth
    } else if p.base != q.base {
        comps_lt(p.base, q.base)
    } else if p.subtree != q.subtree {
        !p.subtree
    } else {
        match (p.anchor, q.anchor) {
            (None, Some(_)) => true,
            (Some(a), Some(b)) => comps_lt(a, b),
            _ => false,
        }
    }
}

pub proof fn lemma_pat_lt_irreflexive(p: PatternModel)
    ensures
        !pat_lt(p, p),
{
    if let Some(a) = p.anchor {
        lemma_comps_lt_irreflexive(a);
    }
}

pub proof fn lemma_pat_lt_transitive(p: PatternModel, q: PatternModel, r: PatternModel)
    requires
        pat_lt(p, q),
        pat_lt(q, r),
    ensures
        pat_lt(p, r),
{
    if p.any_depth == q.any_depth && q.any_depth == r.any_depth {
        if p.base != q.base && q.base != r.base {
            lemma_comps_lt_transitive(p.base, q.base, r.base);
            if p.base == r.base {
                lemma_comps_lt_asymmetric(p.base, q.base);
            }
        } else if p.base == q.base && q.base == r.base {
            if p.subtree == q.subtree && q.subtree == r.subtree {
                match (p.anchor, q.anchor, r.anchor) {
                    (Some(a), Some(b), Some(c)) => {
                        lemma_comps_lt_transitive(a, b, c);
                    },
                    _ => {},
                }
            }
        }
    }
}

pub proof fn lemma_pat_lt_total(p: PatternModel, q: PatternModel)
    ensures
        p == q || pat_lt(p, q) || pat_lt(q, p),
{
    lemma_comps_lt_total(p.base, q.base);
    match (p.anchor, q.anchor) {
        (Some(a), Some(b)) => {
            lemma_comps_lt_total(a, b);
        },
        _ => {},
    }
}

pub proof fn lemma_pat_lt_asymmetric(p: PatternModel, q: PatternModel)
    requires
        pat_lt(p, q),
    ensures
        !pat_lt(q, p),
{
    if pat_lt(q, p) {
        lemma_pat_lt_transitive(p, q, p);
        lemma_pat_lt_irreflexive(p);
    }
}

pub open spec fn pats_view(v: Seq<PathPattern>) -> Seq<PatternModel> {
    v.map_values(|p: PathPattern| p@)
}

/// Strictly increasing in the canonical order (hence free of duplicates).
pub open spec fn pats_sorted(s: Seq<PatternModel>) -> bool {
    forall|i: int, j: int| 0 <= i < j < s.len() ==> pat_lt(#[trigger] s[i], #[trigger] s[j])
}

/// Some other member of `s` covers `x`.
pub open spec fn redundant_in(x: PatternModel, s: Seq<PatternModel>) -> bool {
    exists|j: int| 0 <= j < s.len() && s[j] != x && covers_model(#[trigger] s[j], x)
}

/// `r` is the canonical form of the pattern list `s`: sorted, and holding exactly the members of
/// `s` that no other member covers.
pub open spec fn canonical_set_of(r: Seq<PatternModel>, s: Seq<PatternModel>) -> bool {
    &&& pats_sorted(r)
    &&& forall|x: PatternModel| #[trigger]
        r.contains(x) <==> (s.contains(x) && !redundant_in(x, s))
}

/// Two strictly sorted lists with the same members are the same list.
pub proof fn lemma_sorted_unique(a: Seq<PatternModel>, b: Seq<PatternModel>)
    requires
        pats_sorted(a),
        pats_sorted(b),
        forall|x: PatternModel| a.contains(x) <==> b.contains(x),
    ensures
        a == b,
    decreases a.len() + b.len(),
{
    if a.len() == 0 {
        if b.len() > 0 {
            assert(b.contains(b[0]));
        }
        assert(a =~= b);
    } else if b.len() == 0 {
        assert(a.contains(a[0]));
    } else {
        assert(a.contains(a[0]));
        assert(b.contains(b[0]));
        let ia = choose|i: int| 0 <= i < a.len() && a[i] == b[0];
        let ib = choose|i: int| 0 <= i < b.len() && b[i] == a[0];
        if a[0] != b[0] {
            lemma_pat_lt_total(a[0], b[0]);
            if pat_lt(a[0], b[0]) {
                // a[0] sits in b after b[0]
                assert(ib > 0);
                assert(pat_lt(b[0], b[ib]));
                lemma_pat_lt_asymmetric(a[0], b[0]);
            } else {
                assert(ia > 0);
                assert(pat_lt(a[0], a[ia]));
                lemma_pat_lt_asymmetric(b[0], a[0]);
            }
        }
        let ta = a.drop_first();
        let tb = b.drop_first();
        assert forall|x: PatternModel| ta.contains(x) <==> tb.contains(x) by {
            if ta.contains(x) {
                let k = choose|k: int| 0 <= k < ta.len() && ta[k] == x;
                assert(a[k + 1] == x);
                assert(pat_lt(a[0], a[k + 1]));
                lemma_pat_lt_irreflexive(x);
                assert(a.contains(x));
                let m = choose|m: int| 0 <= m < b.len() && b[m] == x;
                assert(m != 0);
                assert(tb[m - 1] == x);
            }
            if tb.contains(x) {
                let k = choose|k: int| 0 <= k < tb.len() && tb[k] == x;
                assert(b[k + 1] == x);
                assert(pat_lt(b[0], b[k + 1]));
                lemma_pat_lt_irreflexive(x);
                assert(b.contains(x));
                let m = choose|m: int| 0 <= m < a.len() && a[m] == x;
                assert(m != 0);
                assert(ta[m - 1] == x);
            }
        }
        lemma_sorted_unique(ta, tb);
        assert(a =~= seq![a[0]] + ta);
        assert(b =~= seq![b[0]] + tb);
    }
}


/// Decides `comps_lt`.
pub fn comps_less(a: &Vec<Vec<char>>, b: &Vec<Vec<char>>) -> (r: bool)
    ensures
        r == comps_lt(comps_view(a@), comps_view(b@)),
{
    let ghost av = comps_view(a@);
    let ghost bv = comps_view(b@);
    let mut i: usize = 0;
    assert(av.skip(0) =~= av);
    assert(bv.skip(0) =~= bv);
    while i < a.len() && i < b.len()
        invariant
            av == comps_view(a@),
            bv == comps_view(b@),
            i <= a.len(),
            i <= b.len(),
            comps_lt(av, bv) == comps_lt(av.skip(i as int), bv.skip(i as int)),
        decreases a.len() - i,
    {
        assert(av.skip(i as int)[0] == a@[i as int]@);
        assert(bv.skip(i as int)[0] == b@[i as int]@);
        if chars_less(a[i].as_slice(), b[i].as_slice()) {
            return true;
        }
        if !crate::text::chars_eq(a[i].as_slice(), b[i].as_slice()) {
            return false;
        }
        assert(av.skip(i as int).drop_first() =~= av.skip(i + 1));
        assert(bv.skip(i as int).drop_first() =~= bv.skip(i + 1));
        i = i + 1;
    }
    assert(av.skip(i as int).len() == a.len() - i);
    assert(bv.skip(i as int).len() == b.len() - i);
    i == a.len() && i < b.len()
}

impl PathPattern {
    /// Equality of the patterns' values.
    pub fn same_as(&self, other: &PathPattern) -> (r: bool)
        ensures
            r == (self@ == other@),
    {
        let r = self.is_any_depth() == other.is_any_depth()
            && self.is_subtree() == other.is_subtree()
            && comps_eq(self.base_comps(), other.base_comps())
            && match (self.anchor_comps(), other.anchor_comps()) {
                (None, None) => true,
                (Some(a), Some(b)) => comps_eq(a, b),
                _ => false,
            };
        proof {
            if r {
                assert(self@.base == other@.base);
                assert(self@.anchor == other@.anchor);
            }
        }
        r
    }

    /// Decides the canonical order `pat_lt`.
    pub fn precedes(&self, other: &PathPattern) -> (r: bool)
        ensures
            r == pat_lt(self@, other@),
    {
        if self.is_any_depth() != other.is_any_depth() {
            return !self.is_any_depth();
        }
        if !comps_eq(self.base_comps(), other.base_comps()) {
            return comps_less(self.base_comps(), other.base_comps());
        }
        if self.is_subtree() != other.is_subtree() {
            return !self.is_subtree();
        }
        match (self.anchor_comps(), other.anchor_comps()) {
            (None, Some(_)) => true,
            (Some(a), Some(b)) => comps_less(a, b),
            _ => false,
        }
    }
}

/// Inserts `x` into a strictly sorted list, keeping it sorted; an equal pattern already present
/// leaves the list unchanged.
fn insert_sorted(v: &mut Vec<PathPattern>, x: PathPattern)
    requires
        pats_sorted(pats_view(old(v)@)),
    ensures
        pats_sorted(pats_view(final(v)@)),
        forall|y: PatternModel| #[trigger]
            pats_view(final(v)@).contains(y) <==> (pats_view(old(v)@).contains(y) || y == x@),
{
    let ghost old_view = pats_view(v@);
    let mut i: usize = 0;
    while i < v.len() && v[i].precedes(&x)
        invariant
            old_view == pats_view(v@),
            pats_sorted(old_view),
            i <= v.len(),
            forall|k: int| 0 <= k < i ==> pat_lt(#[trigger] old_view[k], x@),
        decreases v.len() - i,
    {
        i = i + 1;
    }
    if i < v.len() && v[i].same_as(&x) {
        assert(old_view[i as int] == x@);
        return;
    }
    proof {
        if i < v.len() {
            lemma_pat_lt_total(old_view[i as int], x@);
        }
    }
    v.insert(i, x);
    let ghost nv = pats_view(v@);
    assert(nv =~= old_view.insert(i as int, x@));
    assert forall|a: int, b: int| 0 <= a < b < nv.len() implies pat_lt(#[trigger] nv[a], #[trigger] nv[b]) by {
        if b < i {
        } else if a < i && b == i {
        } else if a < i && b > i {
            assert(pat_lt(old_view[a], old_view[b - 1]));
        } else if a == i {
            assert(pat_lt(x@, old_view[i as int]));
            if b - 1 > i {
                assert(pat_lt(old_view[i as int], old_view[b - 1]));
                lemma_pat_lt_transitive(x@, old_view[i as int], old_view[b - 1]);
            }
        } else {
            assert(pat_lt(old_view[a - 1], old_view[b - 1]));
        }
    }
    assert forall|y: PatternModel| #[trigger] nv.contains(y) <==> (old_view.contains(y) || y == x@) by {
        if nv.contains(y) {
            let k = choose|k: int| 0 <= k < nv.len() && nv[k] == y;
            if k < i {
                assert(old_view[k] == y);
            } else if k > i {
                assert(old_view[k - 1] == y);
            }
        }
        if old_view.contains(y) {
            let k = choose|k: int| 0 <= k < old_view.len() && old_view[k] == y;
            if k < i {
                assert(nv[k] == y);
            } else {
                assert(nv[k + 1] == y);
            }
        }
        if y == x@ {
            assert(nv[i as int] == y);
        }
    }
}

/// The canonical form of a pattern set: sorted, deduplicated, and without the patterns that
/// another member covers. Idempotent and independent of the input order (see
/// `canonicalize_set_is_idempotent` and `canonicalize_set_ignores_order`).
pub fn canonicalize_set(patterns: &[PathPattern]) -> (r: Vec<PathPattern>)
    ensures
        canonical_set_of(pats_view(r@), pats_view(patterns@)),
        forall|i: int| 0 <= i < patterns@.len() ==> covered_in(#[trigger] pats_view(patterns@)[i], pats_view(r@)),
{
    let ghost input = pats_view(patterns@);
    let mut sorted: Vec<PathPattern> = Vec::new();
    let mut i: usize = 0;
    while i < patterns.len()
        invariant
            input == pats_view(patterns@),
            i <= patterns.len(),
            pats_sorted(pats_view(sorted@)),
            forall|y: PatternModel| #[trigger]
                pats_view(sorted@).contains(y) <==> input.take(i as int).contains(y),
        decreases patterns.len() - i,
    {
        let ghost before = pats_view(sorted@);
        insert_sorted(&mut sorted, patterns[i].copy());
        let ghost tn = input.take(i + 1);
        let ghost tp = input.take(i as int);
        assert(tn =~= tp.push(input[i as int]));
        assert forall|y: PatternModel| #[trigger]
            pats_view(sorted@).contains(y) <==> tn.contains(y) by {
            if tn.contains(y) {
                let k = choose|k: int| 0 <= k < tn.len() && tn[k] == y;
                if k < tp.len() {
                    assert(tp[k] == y);
                }
            }
            if tp.contains(y) {
                let k = choose|k: int| 0 <= k < tp.len() && tp[k] == y;
                assert(tn[k] == y);
            }
            if y == input[i as int] {
                assert(tn[tp.len() as int] == y);
            }
        }
        i = i + 1;
    }
    assert(input.take(patterns.len() as int) =~= input);
    let ghost sv = pats_view(sorted@);
    // `sv` holds exactly the members of the input.
    let mut out: Vec<PathPattern> = Vec::new();
    let mut k: usize = 0;
    while k < sorted.len()
        invariant
            sv == pats_view(sorted@),
            pats_sorted(sv),
            forall|y: PatternModel| #[trigger] sv.contains(y) <==> input.contains(y),
            k <= sorted.len(),
            pats_sorted(pats_view(out@)),
            forall|a: int| 0 <= a < out.len() ==> exists|b: int| 0 <= b < k && #[trigger] pats_view(out@)[a] == sv[b],
            forall|y: PatternModel| #[trigger]
                pats_view(out@).contains(y) <==> (sv.take(k as int).contains(y) && !redundant_in(y, sv)),
        decreases sorted.len() - k,
    {
        let mut redundant = false;
        let mut j: usize = 0;
        while j < sorted.len()
            invariant
                sv == pats_view(sorted@),
                k < sorted.len(),
                j <= sorted.len(),
                redundant == exists|m: int| 0 <= m < j && sv[m] != sv[k as int] && covers_model(#[trigger] sv[m], sv[k as int]),
            decreases sorted.len() - j,
        {
            if !redundant && j != k && !sorted[j].same_as(&sorted[k]) && sorted[j].covers(&sorted[k]) {
                redundant = true;
            }
            assert(sv[j as int] == sorted@[j as int]@);
            j = j + 1;
        }
        assert(redundant == redundant_in(sv[k as int], sv));
        let ghost before = pats_view(out@);
        if !redundant {
            out.push(sorted[k].copy());
            let ghost now = pats_view(out@);
            assert(now =~= before.push(sv[k as int]));
            assert forall|a: int, b: int| 0 <= a < b < now.len() implies pat_lt(#[trigger] now[a], #[trigger] now[b]) by {
                if b == now.len() - 1 {
                    let c = choose|c: int| 0 <= c < k && #[trigger] before[a] == sv[c];
                    assert(pat_lt(sv[c], sv[k as int]));
                }
            }
            assert forall|a: int| 0 <= a < now.len() implies exists|b: int| 0 <= b < k + 1 && #[trigger] now[a] == sv[b] by {
                if a == now.len() - 1 {
                    assert(now[a] == sv[k as int]);
                } else {
                    let c = choose|c: int| 0 <= c < k && #[trigger] before[a] == sv[c];
                    assert(now[a] == sv[c]);
                }
            }
        }
        let ghost tn = sv.take(k + 1);
        let ghost tp = sv.take(k as int);
        assert(tn =~= tp.push(sv[k as int]));
        assert forall|y: PatternModel| #[trigger]
            pats_view(out@).contains(y) <==> (tn.contains(y) && !redundant_in(y, sv)) by {
            let now = pats_view(out@);
            if tn.contains(y) {
                let c = choose|c: int| 0 <= c < tn.len() && tn[c] == y;
                if c < tp.len() {
                    assert(tp[c] == y);
                }
            }
            if tp.contains(y) {
                let c = choose|c: int| 0 <= c < tp.len() && tp[c] == y;
                assert(tn[c] == y);
            }
            if y == sv[k as int] {
                assert(tn[tp.len() as int] == y);
            }
            if !redundant {
                if now.contains(y) {
                    let c = choose|c: int| 0 <= c < now.len() && now[c] == y;
                    if c < before.len() {
                        assert(before[c] == y);
                    }
                }
                if before.contains(y) {
                    let c = choose|c: int| 0 <= c < before.len() && before[c] == y;
                    assert(now[c] == y);
                }
                if y == sv[k as int] {
                    assert(now[now.len() - 1] == y);
                }
            }
        }
        k = k + 1;
    }
    assert(sv.take(sorted.len() as int) =~= sv);
    let ghost ov = pats_view(out@);
    assert forall|y: PatternModel| #[trigger] ov.contains(y) <==> (input.contains(y) && !redundant_in(y, input)) by {
        assert(redundant_in(y, sv) ==> redundant_in(y, input)) by {
            if redundant_in(y, sv) {
                let j = choose|j: int| 0 <= j < sv.len() && sv[j] != y && covers_model(#[trigger] sv[j], y);
                assert(sv.contains(sv[j]));
                assert(input.contains(sv[j]));
                let m = choose|m: int| 0 <= m < input.len() && input[m] == sv[j];
                assert(covers_model(input[m], y));
            }
        }
        assert(redundant_in(y, input) ==> redundant_in(y, sv)) by {
            if redundant_in(y, input) {
                let j = choose|j: int| 0 <= j < input.len() && input[j] != y && covers_model(#[trigger] input[j], y);
                assert(input.contains(input[j]));
                assert(sv.contains(input[j]));
                let m = choose|m: int| 0 <= m < sv.len() && sv[m] == input[j];
                assert(covers_model(sv[m], y));
            }
        }
    }
    proof {
        lemma_pats_wf(patterns@);
        assert forall|i: int| 0 <= i < patterns@.len() implies covered_in(#[trigger] pats_view(patterns@)[i], pats_view(out@)) by {
            assert(input.contains(input[i]));
            lemma_canonical_covers(ov, input, input[i]);
        }
    }
    out
}

/// Some member of `s` covers `x`.
pub open spec fn covered_in(x: PatternModel, s: Seq<PatternModel>) -> bool {
    exists|j: int| 0 <= j < s.len() && covers_model(#[trigger] s[j], x)
}

/// Pattern values are well-formed.
pub proof fn lemma_pats_wf(v: Seq<PathPattern>)
    ensures
        forall|i: int| 0 <= i < v.len() ==> pattern_wf(#[trigger] pats_view(v)[i]),
{
    assert forall|i: int| 0 <= i < v.len() implies pattern_wf(#[trigger] pats_view(v)[i]) by {
        crate::path::pattern_values_are_well_formed(v[i]);
    }
}

/// What canonicalization promises of a pattern set: the result is strictly ascending; it holds
/// exactly the inputs no other input covers; every input stays covered by a member of it; it is
/// its own canonical form; and every reordering or repetition of the input has the same one.
pub proof fn canonical_set_laws(v: Seq<PathPattern>, r: Seq<PatternModel>, s2: Seq<PatternModel>, r2: Seq<PatternModel>)
    requires
        canonical_set_of(r, pats_view(v)),
    ensures
        pats_sorted(r),
        forall|x: PatternModel| #[trigger] r.contains(x) <==> (pats_view(v).contains(x) && !redundant_in(x, pats_view(v))),
        forall|x: PatternModel| #[trigger] pats_view(v).contains(x) ==> covered_in(x, r),
        canonical_set_of(r, r),
        canonical_set_of(r2, s2) && (forall|x: PatternModel| s2.contains(x) <==> pats_view(v).contains(x)) ==> r2 == r,
{
    let s = pats_view(v);
    lemma_pats_wf(v);
    assert forall|x: PatternModel| #[trigger] s.contains(x) implies covered_in(x, r) by {
        lemma_canonical_covers(r, s, x);
    }
    canonical_set_is_its_own_form(r, s);
    if canonical_set_of(r2, s2) && (forall|x: PatternModel| s2.contains(x) <==> s.contains(x)) {
        canonicalize_set_ignores_order(s, s2, r, r2);
    }
}

/// A canonical set is its own canonical form.
pub proof fn canonical_set_is_its_own_form(r: Seq<PatternModel>, s: Seq<PatternModel>)
    requires
        canonical_set_of(r, s),
    ensures
        canonical_set_of(r, r),
{
    assert forall|x: PatternModel| #[trigger] r.contains(x) implies !redundant_in(x, r) by {
        if redundant_in(x, r) {
            let j = choose|j: int| 0 <= j < r.len() && r[j] != x && covers_model(#[trigger] r[j], x);
            assert(r.contains(r[j]));
            let m = choose|m: int| 0 <= m < s.len() && s[m] == r[j];
            assert(redundant_in(x, s));
        }
    }
}


/// Canonicalizing a pattern set does not depend on the order, or the repetitions, of the input:
/// lists with the same members canonicalize to the same list.
pub proof fn canonicalize_set_ignores_order(
    a: Seq<PatternModel>,
    b: Seq<PatternModel>,
    ra: Seq<PatternModel>,
    rb: Seq<PatternModel>,
)
    requires
        forall|x: PatternModel| a.contains(x) <==> b.contains(x),
        canonical_set_of(ra, a),
        canonical_set_of(rb, b),
    ensures
        ra == rb,
{
    assert forall|x: PatternModel| ra.contains(x) <==> rb.contains(x) by {
        assert(redundant_in(x, a) ==> redundant_in(x, b)) by {
            if redundant_in(x, a) {
                let j = choose|j: int| 0 <= j < a.len() && a[j] != x && covers_model(#[trigger] a[j], x);
                assert(a.contains(a[j]));
                let m = choose|m: int| 0 <= m < b.len() && b[m] == a[j];
                assert(covers_model(b[m], x));
            }
        }
        assert(redundant_in(x, b) ==> redundant_in(x, a)) by {
            if redundant_in(x, b) {
                let j = choose|j: int| 0 <= j < b.len() && b[j] != x && covers_model(#[trigger] b[j], x);
                assert(b.contains(b[j]));
                let m = choose|m: int| 0 <= m < a.len() && a[m] == b[j];
                assert(covers_model(a[m], x));
            }
        }
    }
    lemma_sorted_unique(ra, rb);
}

/// Canonicalizing a canonical set changes nothing.
pub proof fn canonicalize_set_is_idempotent(s: Seq<PatternModel>, r: Seq<PatternModel>, r2: Seq<PatternModel>)
    requires
        canonical_set_of(r, s),
        canonical_set_of(r2, r),
    ensures
        r2 == r,
{
    assert forall|x: PatternModel| r2.contains(x) <==> r.contains(x) by {
        if r.contains(x) {
            // a member of `r` is not redundant among the members of `s`, so not among `r` either
            if redundant_in(x, r) {
                let j = choose|j: int| 0 <= j < r.len() && r[j] != x && covers_model(#[trigger] r[j], x);
                assert(r.contains(r[j]));
                assert(s.contains(r[j]));
                let m = choose|m: int| 0 <= m < s.len() && s[m] == r[j];
                assert(covers_model(s[m], x));
                assert(redundant_in(x, s));
            }
        }
    }
    lemma_sorted_unique(r2, r);
}


/// A copy of a pattern list.
pub fn copy_patterns(v: &Vec<PathPattern>) -> (r: Vec<PathPattern>)
    ensures
        pats_view(r@) == pats_view(v@),
{
    let mut r: Vec<PathPattern> = Vec::new();
    let mut i: usize = 0;
    while i < v.len()
        invariant
            i <= v.len(),
            r.len() == i,
            pats_view(r@) == pats_view(v@).take(i as int),
        decreases v.len() - i,
    {
        let c = v[i].copy();
        let ghost before = r@;
        r.push(c);
        assert(r@ == before.push(c));
        i = i + 1;
        assert forall|k: int| 0 <= k < i implies #[trigger] pats_view(r@)[k] == pats_view(v@).take(i as int)[k] by {
            if k < i - 1 {
                assert(pats_view(before)[k] == pats_view(v@).take(i - 1)[k]);
            }
        }
        assert(pats_view(r@) =~= pats_view(v@).take(i as int));
    }
    assert(pats_view(v@).take(v.len() as int) =~= pats_view(v@));
    r
}


/// The canonical form depends only on the members of the input.
pub proof fn lemma_canonical_same_members(r: Seq<PatternModel>, a: Seq<PatternModel>, b: Seq<PatternModel>)
    requires
        canonical_set_of(r, a),
        forall|x: PatternModel| a.contains(x) <==> b.contains(x),
    ensures
        canonical_set_of(r, b),
{
    assert forall|x: PatternModel| redundant_in(x, a) <==> redundant_in(x, b) by {
        if redundant_in(x, a) {
            let j = choose|j: int| 0 <= j < a.len() && a[j] != x && covers_model(#[trigger] a[j], x);
            assert(a.contains(a[j]));
            let m = choose|m: int| 0 <= m < b.len() && b[m] == a[j];
            assert(covers_model(b[m], x));
        }
        if redundant_in(x, b) {
            let j = choose|j: int| 0 <= j < b.len() && b[j] != x && covers_model(#[trigger] b[j], x);
            assert(b.contains(b[j]));
            let m = choose|m: int| 0 <= m < a.len() && a[m] == b[j];
            assert(covers_model(a[m], x));
        }
    }
}

// ---------------------------------------------------------------------------------------------
// Coverage survives canonicalization

/// A pattern as parsing produces it: an absolute pattern carries no anchor.
pub open spec fn pattern_wf(p: PatternModel) -> bool {
    !p.any_depth ==> p.anchor is None
}

/// Parsing yields well-formed patterns.
pub proof fn parsed_patterns_are_well_formed(s: Seq<char>)
    ensures
        parse_model(s) matches Ok(p) ==> pattern_wf(p),
{
}

/// Falls strictly along strict coverage: a pattern that covers another and differs from it names
/// a shorter (or less specific) form.
pub open spec fn cover_rank(p: PatternModel) -> nat {
    let b = 2 * p.base.len() + if p.subtree {
        0nat
    } else {
        1nat
    };
    if p.any_depth {
        2 * match p.anchor {
            None => 0nat,
            Some(a) => a.len() + 1,
        } + 2 + b
    } else {
        b
    }
}

proof fn lemma_prefix_reflexive(a: Comps)
    ensures
        comps_prefix(a, a),
{
    assert(a.take(a.len() as int) =~= a);
}

proof fn lemma_prefix_transitive(a: Comps, b: Comps, c: Comps)
    requires
        comps_prefix(a, b),
        comps_prefix(b, c),
    ensures
        comps_prefix(a, c),
{
    assert(c.take(a.len() as int) =~= c.take(b.len() as int).take(a.len() as int));
}

proof fn lemma_prefix_same_length(a: Comps, b: Comps)
    requires
        comps_prefix(a, b),
        a.len() == b.len(),
    ensures
        a == b,
{
    assert(b.take(b.len() as int) =~= b);
}

/// Every pattern covers itself.
pub proof fn lemma_covers_reflexive(p: PatternModel)
    ensures
        covers_model(p, p),
{
    lemma_prefix_reflexive(p.base);
    if let Some(a) = p.anchor {
        lemma_prefix_reflexive(a);
    }
}

pub proof fn lemma_covers_transitive(a: PatternModel, b: PatternModel, c: PatternModel)
    requires
        covers_model(a, b),
        covers_model(b, c),
    ensures
        covers_model(a, c),
{
    if comps_prefix(a.base, b.base) && comps_prefix(b.base, c.base) {
        lemma_prefix_transitive(a.base, b.base, c.base);
    }
    if let Some(ca) = c.anchor {
        if comps_prefix(a.base, b.base) && comps_prefix(b.base, ca) {
            lemma_prefix_transitive(a.base, b.base, ca);
        }
        if let Some(ba) = b.anchor {
            if comps_prefix(a.base, ba) && comps_prefix(ba, ca) {
                lemma_prefix_transitive(a.base, ba, ca);
            }
            if let Some(aa) = a.anchor {
                if comps_prefix(aa, ba) && comps_prefix(ba, ca) {
                    lemma_prefix_transitive(aa, ba, ca);
                }
            }
        }
    }
    if b.base.len() == 0 && comps_prefix(a.base, b.base) {
        assert(a.base.len() == 0);
    }
    if a.base.len() == 0 {
        if let Some(ca) = c.anchor {
            assert(ca.take(0) =~= a.base);
        }
    }
}

proof fn lemma_strict_cover_decreases(y: PatternModel, x: PatternModel)
    requires
        pattern_wf(y),
        pattern_wf(x),
        covers_model(y, x),
        y != x,
    ensures
        cover_rank(y) < cover_rank(x),
{
    if y.base.len() == x.base.len() && comps_prefix(y.base, x.base) {
        lemma_prefix_same_length(y.base, x.base);
    }
    match (y.anchor, x.anchor) {
        (Some(a), Some(b)) => {
            if a.len() == b.len() && comps_prefix(a, b) {
                lemma_prefix_same_length(a, b);
            }
        },
        _ => {},
    }
}

/// Canonicalization drops only what another member covers, so every member of the input stays
/// covered by a member of the canonical set.
pub proof fn lemma_canonical_covers(r: Seq<PatternModel>, s: Seq<PatternModel>, x: PatternModel)
    requires
        canonical_set_of(r, s),
        forall|i: int| 0 <= i < s.len() ==> pattern_wf(#[trigger] s[i]),
        s.contains(x),
    ensures
        exists|j: int| 0 <= j < r.len() && covers_model(#[trigger] r[j], x),
    decreases cover_rank(x),
{
    let k = choose|k: int| 0 <= k < s.len() && s[k] == x;
    assert(pattern_wf(s[k]));
    if redundant_in(x, s) {
        let m = choose|m: int| 0 <= m < s.len() && s[m] != x && covers_model(#[trigger] s[m], x);
        let z = s[m];
        assert(pattern_wf(s[m]));
        lemma_strict_cover_decreases(z, x);
        assert(s.contains(z));
        lemma_canonical_covers(r, s, z);
        let j = choose|j: int| 0 <= j < r.len() && covers_model(#[trigger] r[j], z);
        lemma_covers_transitive(r[j], z, x);
    } else {
        assert(r.contains(x));
        let j = choose|j: int| 0 <= j < r.len() && r[j] == x;
        lemma_covers_reflexive(x);
        assert(covers_model(r[j], x));
    }
}

proof fn lemma_occurs_in_suffix(base: Comps, rq: Comps, rp: Comps, d: int, k: int)
    requires
        0 <= d <= rp.len(),
        rq == rp.skip(d),
        0 <= k,
        k + base.len() <= rq.len(),
        rq.subrange(k, k + base.len()) == base,
    ensures
        rp.subrange(d + k, d + k + base.len()) == base,
{
    assert(rp.subrange(d + k, d + k + base.len()) =~= rq.subrange(k, k + base.len()));
}

proof fn lemma_prefix_occurs(pb: Comps, qb: Comps, r: Comps, k: int)
    requires
        comps_prefix(pb, qb),
        0 <= k,
        k + qb.len() <= r.len(),
        r.subrange(k, k + qb.len()) == qb,
    ensures
        r.subrange(k, k + pb.len()) == pb,
{
    assert(r.subrange(k, k + pb.len()) =~= qb.take(pb.len() as int));
}

/// What is left of `comps` for an any-depth pattern's suffix to match, below its anchor.
spec fn remainder(p: PatternModel, comps: Comps) -> Option<Comps> {
    match p.anchor {
        Some(a) => if comps_prefix(a, comps) {
            Some(comps.skip(a.len() as int))
        } else {
            None
        },
        None => Some(comps),
    }
}

/// Covering is sound: when `p` covers `q`, every absolute path `q` matches `p` matches too. (An
/// any-depth pattern whose suffix normalized away to nothing matches no path, so it is left out.)
pub proof fn covers_is_sound(p: PatternModel, q: PatternModel, comps: Comps)
    requires
        p.any_depth ==> p.base.len() > 0,
        covers_model(p, q),
        matches_model(q, true, comps),
    ensures
        matches_model(p, true, comps),
{
    if !p.any_depth && !q.any_depth {
        if p.subtree {
            if q.subtree {
                lemma_prefix_transitive(p.base, q.base, comps);
            } else {
                assert(comps.take(p.base.len() as int) =~= q.base.take(p.base.len() as int));
            }
        }
    } else if !p.any_depth && q.any_depth {
        match q.anchor {
            Some(a) => lemma_prefix_transitive(p.base, a, comps),
            None => assert(comps.take(0) =~= p.base),
        }
    } else if p.any_depth && q.any_depth {
        let rq = remainder(q, comps)->0;
        assert(remainder(q, comps) is Some);
        let d: int = match (p.anchor, q.anchor) {
            (Some(a), Some(b)) => {
                lemma_prefix_transitive(a, b, comps);
                assert(rq =~= comps.skip(a.len() as int).skip(b.len() - a.len()));
                b.len() - a.len()
            },
            (None, Some(b)) => b.len() as int,
            _ => 0,
        };
        let rp = remainder(p, comps)->0;
        assert(remainder(p, comps) is Some);
        assert(rq == rp.skip(d)) by {
            if d == 0 {
                assert(rp.skip(0) =~= rp);
            }
        }
        if p.subtree {
            let k: int = if q.subtree {
                choose|k: int| 0 <= k && k + q.base.len() <= rq.len() && #[trigger] rq.subrange(k, k + q.base.len()) == q.base
            } else {
                assert(rq.subrange(rq.len() - q.base.len(), rq.len() as int) =~= rq.skip(rq.len() - q.base.len()));
                rq.len() - q.base.len()
            };
            lemma_prefix_occurs(p.base, q.base, rq, k);
            lemma_occurs_in_suffix(p.base, rq, rp, d, k);
            assert(rp.subrange(d + k, d + k + p.base.len()) == p.base);
        } else {
            assert(rp.skip(rp.len() - p.base.len()) =~= rq.skip(rq.len() - q.base.len()));
        }
    }
}

/// Covering is antisymmetric on well-formed patterns: two patterns that cover each other are equal.
pub proof fn covers_is_antisymmetric(p: PatternModel, q: PatternModel)
    requires
        pattern_wf(p),
        pattern_wf(q),
        covers_model(p, q),
        covers_model(q, p),
    ensures
        p == q,
{
    if comps_prefix(p.base, q.base) && comps_prefix(q.base, p.base) {
        assert(p.base =~= q.base.take(p.base.len() as int));
        assert(p.base =~= q.base);
    }
    match (p.anchor, q.anchor) {
        (Some(a), Some(b)) => {
            if comps_prefix(a, b) && comps_prefix(b, a) {
                assert(a =~= b.take(a.len() as int));
                assert(a =~= b);
            }
        },
        _ => {},
    }
}

/// Between plain patterns covering is matching: a plain pattern covers a literal one exactly when
/// it matches the literal's path; and an any-depth pattern covers no plain one.
pub proof fn covers_plain_patterns_by_matching(p: PatternModel, q: PatternModel)
    ensures
        !p.any_depth && !q.any_depth && !q.subtree ==> (covers_model(p, q) <==> matches_model(p, true, q.base)),
        p.any_depth && !q.any_depth ==> !covers_model(p, q),
{
}

} // verus!
