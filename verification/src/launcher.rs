//! The launcher's environment construction. Pure: given the ambient variables, the environment
//! posture, and the resolved catalog, decide what the confined child receives; reading the real
//! environment and building the command stays with the caller. The catalog strip partitions
//! first -- a catalog variable is stripped and attributed to its type whatever the posture says --
//! and the posture filters the remainder. A stripped variable is absent, not empty.

use vstd::prelude::*;
use crate::blueprint::{dropped_vars, env_keeps, kept_vars, vars_view, EnvModel, EnvPosture, EnvScrub, ScrubModel};
use crate::catalog::{enforced_of, ResolvedCatalog, ResolvedCatalogModel, ResolvedEntryModel};
use crate::names::{canonical_names, copy_string, copy_strings, names_contain, names_sorted, strs_view};

verus! {

/// The launcher's decision, with the operator-channel itemization. Names only, never values.
#[derive(Clone, Debug, PartialEq, Eq)]
pub struct EnvConstruction {
    pub kept: Vec<(String, String)>,
    /// Catalog strips: `(variable name, credential type)`, sorted by name.
    pub stripped: Vec<(String, String)>,
    /// Names the posture itself dropped.
    pub posture_dropped: Vec<String>,
}

/// Every variable name the given types list, type by type.
pub open spec fn envs_of(types: Seq<(Seq<char>, ResolvedEntryModel)>) -> Seq<Seq<char>>
    decreases types.len(),
{
    if types.len() == 0 {
        Seq::empty()
    } else {
        envs_of(types.drop_last()) + types.last().1.envs
    }
}

/// The types `allow` names, in order.
pub open spec fn allowed_of(types: Seq<(Seq<char>, ResolvedEntryModel)>, allow: Seq<Seq<char>>) -> Seq<(Seq<char>, ResolvedEntryModel)>
    decreases types.len(),
{
    if types.len() == 0 {
        Seq::empty()
    } else if allow.contains(types.last().0) {
        allowed_of(types.drop_last(), allow).push(types.last())
    } else {
        allowed_of(types.drop_last(), allow)
    }
}

/// The first type (in name order) among `types` that lists `var`.
pub open spec fn first_type_with(types: Seq<(Seq<char>, ResolvedEntryModel)>, var: Seq<char>) -> Seq<char>
    decreases types.len(),
{
    if types.len() == 0 {
        Seq::empty()
    } else if types[0].1.envs.contains(var) {
        types[0].0
    } else {
        first_type_with(types.drop_first(), var)
    }
}

/// The variables whose names pass `keep`, in order.
pub open spec fn vars_where(vars: Seq<(Seq<char>, Seq<char>)>, names: Seq<Seq<char>>, inside: bool) -> Seq<(Seq<char>, Seq<char>)>
    decreases vars.len(),
{
    if vars.len() == 0 {
        Seq::empty()
    } else if names.contains(vars.last().0) == inside {
        vars_where(vars.drop_last(), names, inside).push(vars.last())
    } else {
        vars_where(vars.drop_last(), names, inside)
    }
}

/// `(name, type)` once for every variable of `vars` called `name`.
pub open spec fn strips_for(vars: Seq<(Seq<char>, Seq<char>)>, name: Seq<char>, ty: Seq<char>) -> Seq<(Seq<char>, Seq<char>)>
    decreases vars.len(),
{
    if vars.len() == 0 {
        Seq::empty()
    } else if vars.last().0 == name {
        strips_for(vars.drop_last(), name, ty).push((name, ty))
    } else {
        strips_for(vars.drop_last(), name, ty)
    }
}

/// The strip itemization: for each stripped name in name order, one `(name, type)` per
/// occurrence in `vars`, the type being the first enforced type that lists the name.
pub open spec fn strip_list(sorted: Seq<Seq<char>>, vars: Seq<(Seq<char>, Seq<char>)>, enforced: Seq<(Seq<char>, ResolvedEntryModel)>) -> Seq<(Seq<char>, Seq<char>)>
    decreases sorted.len(),
{
    if sorted.len() == 0 {
        Seq::empty()
    } else {
        strip_list(sorted.drop_last(), vars, enforced) + strips_for(vars, sorted.last(), first_type_with(enforced, sorted.last()))
    }
}

/// The members of `s` that `ex` does not hold, in order.
pub open spec fn names_without(s: Seq<Seq<char>>, ex: Seq<Seq<char>>) -> Seq<Seq<char>>
    decreases s.len(),
{
    if s.len() == 0 {
        Seq::empty()
    } else if ex.contains(s.last()) {
        names_without(s.drop_last(), ex)
    } else {
        names_without(s.drop_last(), ex).push(s.last())
    }
}

/// The variables an excluded type lists that no enforced type also lists.
pub open spec fn lifted_raw(c: ResolvedCatalogModel, allow: Seq<Seq<char>>) -> Seq<Seq<char>> {
    names_without(envs_of(allowed_of(c.types, allow)), envs_of(enforced_of(c.types, allow)))
}

/// The posture that filters the remainder: a scrub additionally keeps the excluded types'
/// variables (they are secrets by shape, deliberately admitted); other postures stay exact.
pub open spec fn effective_posture(e: EnvModel, lifted: Seq<Seq<char>>) -> EnvModel {
    match e {
        EnvModel::Scrub(s) => EnvModel::Scrub(ScrubModel { allow: s.allow + lifted, deny: s.deny }),
        other => other,
    }
}

/// What `construct_env` decides.
pub open spec fn env_construction_of(
    r: (Seq<(Seq<char>, Seq<char>)>, Seq<(Seq<char>, Seq<char>)>, Seq<Seq<char>>),
    posture: EnvModel,
    c: ResolvedCatalogModel,
    allow: Seq<Seq<char>>,
    vars: Seq<(Seq<char>, Seq<char>)>,
) -> bool {
    let enforced = enforced_of(c.types, allow);
    let strip = envs_of(enforced);
    let remainder = vars_where(vars, strip, false);
    let eff = effective_posture(posture, lifted_raw(c, allow));
    &&& r.0 == kept_vars(eff, remainder)
    &&& r.2 == dropped_vars(eff, remainder)
    &&& exists|sorted: Seq<Seq<char>>|
        names_sorted(sorted) && (forall|x: Seq<char>| #[trigger] sorted.contains(x) <==> strip.contains(x)) && r.1
            == strip_list(sorted, vars, enforced)
}

proof fn lemma_keeps_same(e1: EnvModel, e2: EnvModel, vars: Seq<(Seq<char>, Seq<char>)>)
    requires
        forall|n: Seq<char>, v: Seq<char>| env_keeps(e1, n, v) == env_keeps(e2, n, v),
    ensures
        kept_vars(e1, vars) == kept_vars(e2, vars),
        dropped_vars(e1, vars) == dropped_vars(e2, vars),
    decreases vars.len(),
{
    if vars.len() > 0 {
        lemma_keeps_same(e1, e2, vars.drop_last());
    }
}


pub open spec fn pairs_view(v: Seq<(String, crate::catalog::ResolvedEntry)>) -> Seq<(Seq<char>, ResolvedEntryModel)> {
    v.map_values(|e: (String, crate::catalog::ResolvedEntry)| (e.0@, e.1@))
}

fn collect_envs(types: &Vec<(String, crate::catalog::ResolvedEntry)>) -> (r: Vec<String>)
    ensures
        strs_view(r@) == envs_of(pairs_view(types@)),
{
    let ghost tv = pairs_view(types@);
    let mut out: Vec<String> = Vec::new();
    let mut i: usize = 0;
    assert(tv.take(0) =~= Seq::<(Seq<char>, ResolvedEntryModel)>::empty());
    assert(strs_view(out@) =~= Seq::<Seq<char>>::empty());
    while i < types.len()
        invariant
            tv == pairs_view(types@),
            i <= types.len(),
            strs_view(out@) == envs_of(tv.take(i as int)),
        decreases types.len() - i,
    {
        let ghost t = tv.take(i + 1);
        assert(t.drop_last() =~= tv.take(i as int));
        assert(t.last() == tv[i as int]);
        let mut more = copy_strings(&types[i].1.envs);
        let ghost a = strs_view(out@);
        let ghost b = strs_view(more@);
        out.append(&mut more);
        assert(strs_view(out@) =~= a + b);
        i = i + 1;
    }
    assert(tv.take(types.len() as int) =~= tv);
    out
}

fn allowed_types(c: &ResolvedCatalog, allow: &Vec<String>) -> (r: Vec<(String, crate::catalog::ResolvedEntry)>)
    ensures
        pairs_view(r@) == allowed_of(c@.types, strs_view(allow@)),
{
    let n = c.types.len();
    let ghost tv = c@.types;
    let ghost av = strs_view(allow@);
    let mut out: Vec<(String, crate::catalog::ResolvedEntry)> = Vec::new();
    let mut i: usize = 0;
    assert(tv.take(0) =~= Seq::<(Seq<char>, ResolvedEntryModel)>::empty());
    assert(pairs_view(out@) =~= Seq::<(Seq<char>, ResolvedEntryModel)>::empty());
    while i < n
        invariant
            n == tv.len(),
            tv == c@.types,
            av == strs_view(allow@),
            i <= n,
            pairs_view(out@) == allowed_of(tv.take(i as int), av),
        decreases n - i,
    {
        let ghost t = tv.take(i + 1);
        assert(t.drop_last() =~= tv.take(i as int));
        assert(t.last() == tv[i as int]);
        if names_contain(allow, c.types.key(i).as_str()) {
            let k = copy_string(c.types.key(i));
            let v = c.types.value(i).copy();
            let ghost before = pairs_view(out@);
            out.push((k, v));
            assert(pairs_view(out@) =~= before.push((k@, v@)));
        }
        i = i + 1;
    }
    assert(tv.take(n as int) =~= tv);
    out
}

fn first_type_listing(types: &Vec<(String, crate::catalog::ResolvedEntry)>, var: &str) -> (r: String)
    ensures
        r@ == first_type_with(pairs_view(types@), var@),
{
    let ghost tv = pairs_view(types@);
    let mut i: usize = 0;
    assert(tv.skip(0) =~= tv);
    while i < types.len()
        invariant
            tv == pairs_view(types@),
            i <= types.len(),
            first_type_with(tv, var@) == first_type_with(tv.skip(i as int), var@),
        decreases types.len() - i,
    {
        assert(tv.skip(i as int)[0] == tv[i as int]);
        assert(tv.skip(i as int).drop_first() =~= tv.skip(i + 1));
        if names_contain(&types[i].1.envs, var) {
            return copy_string(&types[i].0);
        }
        i = i + 1;
    }
    String::new()
}

fn select_vars(vars: &Vec<(String, String)>, names: &Vec<String>, inside: bool) -> (r: Vec<(String, String)>)
    ensures
        vars_view(r@) == vars_where(vars_view(vars@), strs_view(names@), inside),
{
    let ghost vv = vars_view(vars@);
    let mut out: Vec<(String, String)> = Vec::new();
    let mut i: usize = 0;
    assert(vv.take(0) =~= Seq::<(Seq<char>, Seq<char>)>::empty());
    assert(vars_view(out@) =~= Seq::<(Seq<char>, Seq<char>)>::empty());
    while i < vars.len()
        invariant
            vv == vars_view(vars@),
            i <= vars.len(),
            vars_view(out@) == vars_where(vv.take(i as int), strs_view(names@), inside),
        decreases vars.len() - i,
    {
        let ghost t = vv.take(i + 1);
        assert(t.drop_last() =~= vv.take(i as int));
        assert(t.last() == vv[i as int]);
        if names_contain(names, vars[i].0.as_str()) == inside {
            let k = copy_string(&vars[i].0);
            let v = copy_string(&vars[i].1);
            let ghost before = vars_view(out@);
            out.push((k, v));
            assert(vars_view(out@) =~= before.push((k@, v@)));
        }
        i = i + 1;
    }
    assert(vv.take(vars.len() as int) =~= vv);
    out
}

fn push_strips(out: &mut Vec<(String, String)>, vars: &Vec<(String, String)>, name: &String, ty: &String)
    ensures
        vars_view(final(out)@) == vars_view(old(out)@) + strips_for(vars_view(vars@), name@, ty@),
{
    let ghost vv = vars_view(vars@);
    let ghost start = vars_view(out@);
    let mut i: usize = 0;
    assert(vv.take(0) =~= Seq::<(Seq<char>, Seq<char>)>::empty());
    assert(start + strips_for(vv.take(0), name@, ty@) =~= start);
    while i < vars.len()
        invariant
            vv == vars_view(vars@),
            i <= vars.len(),
            vars_view(out@) == start + strips_for(vv.take(i as int), name@, ty@),
        decreases vars.len() - i,
    {
        let ghost t = vv.take(i + 1);
        assert(t.drop_last() =~= vv.take(i as int));
        assert(t.last() == vv[i as int]);
        if crate::names::str_equal(vars[i].0.as_str(), name.as_str()) {
            let k = copy_string(name);
            let v = copy_string(ty);
            let ghost before = vars_view(out@);
            out.push((k, v));
            assert(vars_view(out@) =~= before.push((k@, v@)));
            assert(start + strips_for(vv.take(i + 1), name@, ty@) =~= (start + strips_for(vv.take(i as int), name@, ty@)).push((name@, ty@)));
        }
        i = i + 1;
    }
    assert(vv.take(vars.len() as int) =~= vv);
}

fn names_minus(s: &Vec<String>, ex: &Vec<String>) -> (r: Vec<String>)
    ensures
        strs_view(r@) == names_without(strs_view(s@), strs_view(ex@)),
{
    let ghost sv = strs_view(s@);
    let mut out: Vec<String> = Vec::new();
    let mut i: usize = 0;
    assert(sv.take(0) =~= Seq::<Seq<char>>::empty());
    assert(strs_view(out@) =~= Seq::<Seq<char>>::empty());
    while i < s.len()
        invariant
            sv == strs_view(s@),
            i <= s.len(),
            strs_view(out@) == names_without(sv.take(i as int), strs_view(ex@)),
        decreases s.len() - i,
    {
        let ghost t = sv.take(i + 1);
        assert(t.drop_last() =~= sv.take(i as int));
        assert(t.last() == sv[i as int]);
        if !names_contain(ex, s[i].as_str()) {
            let k = copy_string(&s[i]);
            let ghost before = strs_view(out@);
            out.push(k);
            assert(strs_view(out@) =~= before.push(k@));
        }
        i = i + 1;
    }
    assert(sv.take(s.len() as int) =~= sv);
    out
}

/// Build the confined child's environment. The catalog strip partitions first; the posture then
/// filters the remainder. `allow` lifts a type's variables from the strip and exempts them from
/// the scrub's secret-shape heuristic, so an excluded credential is usable, not merely present. A
/// variable claimed by both an allowed and an enforced type stays stripped: deny wins.
pub fn construct_env(posture: &EnvPosture, catalog: &ResolvedCatalog, allow: &Vec<String>, vars: Vec<(String, String)>) -> (r: EnvConstruction)
    ensures
        env_construction_of(
            (vars_view(r.kept@), vars_view(r.stripped@), strs_view(r.posture_dropped@)),
            posture@,
            catalog@,
            strs_view(allow@),
            vars_view(vars@),
        ),
{
    let enforced = catalog.enforced_types(allow);
    let strip = collect_envs(&enforced);
    let sorted = canonical_names(&strip);
    let mut stripped: Vec<(String, String)> = Vec::new();
    let mut i: usize = 0;
    let ghost sv = strs_view(sorted@);
    let ghost ev = pairs_view(enforced@);
    assert(sv.take(0) =~= Seq::<Seq<char>>::empty());
    assert(vars_view(stripped@) =~= Seq::<(Seq<char>, Seq<char>)>::empty());
    while i < sorted.len()
        invariant
            sv == strs_view(sorted@),
            ev == pairs_view(enforced@),
            i <= sorted.len(),
            vars_view(stripped@) == strip_list(sv.take(i as int), vars_view(vars@), ev),
        decreases sorted.len() - i,
    {
        let ghost t = sv.take(i + 1);
        assert(t.drop_last() =~= sv.take(i as int));
        assert(t.last() == sv[i as int]);
        let ty = first_type_listing(&enforced, sorted[i].as_str());
        push_strips(&mut stripped, &vars, &sorted[i], &ty);
        i = i + 1;
    }
    assert(sv.take(sorted.len() as int) =~= sv);
    let remainder = select_vars(&vars, &strip, false);
    let allowed = allowed_types(catalog, allow);
    let allowed_envs = collect_envs(&allowed);
    let lifted_list = names_minus(&allowed_envs, &strip);
    let lifted = canonical_names(&lifted_list);
    let effective = match posture {
        EnvPosture::Scrub(scrub) => {
            let mut widened = scrub.copy();
            let mut more = copy_strings(&lifted);
            let ghost a = strs_view(widened.allow@);
            let ghost b = strs_view(more@);
            widened.allow.append(&mut more);
            assert(strs_view(widened.allow@) =~= a + b);
            EnvPosture::Scrub(widened)
        },
        other => other.copy(),
    };
    let ghost spec_eff = effective_posture(posture@, lifted_raw(catalog@, strs_view(allow@)));
    proof {
        assert forall|n: Seq<char>, v: Seq<char>| env_keeps(effective@, n, v) == env_keeps(spec_eff, n, v) by {
            if let EnvModel::Scrub(sc) = posture@ {
                let a1 = effective@->Scrub_0.allow;
                let a2 = spec_eff->Scrub_0.allow;
                assert(a1.contains(n) == a2.contains(n)) by {
                    let raw = lifted_raw(catalog@, strs_view(allow@));
                    let lv = strs_view(lifted@);
                    assert(lv.contains(n) == raw.contains(n));
                    if a1.contains(n) {
                        let k = choose|k: int| 0 <= k < a1.len() && a1[k] == n;
                        if k < sc.allow.len() {
                            assert(a2[k] == n);
                        } else {
                            assert(lv[k - sc.allow.len()] == n);
                            let m = choose|m: int| 0 <= m < raw.len() && raw[m] == n;
                            assert(a2[sc.allow.len() + m] == n);
                        }
                    }
                    if a2.contains(n) {
                        let k = choose|k: int| 0 <= k < a2.len() && a2[k] == n;
                        if k < sc.allow.len() {
                            assert(a1[k] == n);
                        } else {
                            assert(raw[k - sc.allow.len()] == n);
                            assert(lv.contains(n));
                            let m = choose|m: int| 0 <= m < lv.len() && lv[m] == n;
                            assert(a1[sc.allow.len() + m] == n);
                        }
                    }
                }
            }
        }
        lemma_keeps_same(effective@, spec_eff, vars_view(remainder@));
    }
    let posture_dropped = effective.dropped_names(remainder.as_slice());
    let kept = effective.apply(remainder);
    EnvConstruction { kept, stripped, posture_dropped }
}


proof fn lemma_kept_from(e: EnvModel, vars: Seq<(Seq<char>, Seq<char>)>, x: (Seq<char>, Seq<char>))
    requires
        kept_vars(e, vars).contains(x),
    ensures
        vars.contains(x),
    decreases vars.len(),
{
    let k = kept_vars(e, vars.drop_last());
    if x == vars.last() {
        assert(vars[vars.len() - 1] == x);
    } else {
        if env_keeps(e, vars.last().0, vars.last().1) {
            let j = choose|j: int| 0 <= j < k.push(vars.last()).len() && k.push(vars.last())[j] == x;
            assert(k[j] == x);
        }
        lemma_kept_from(e, vars.drop_last(), x);
        let j = choose|j: int| 0 <= j < vars.drop_last().len() && vars.drop_last()[j] == x;
        assert(vars[j] == x);
    }
}

proof fn lemma_where_outside(vars: Seq<(Seq<char>, Seq<char>)>, names: Seq<Seq<char>>, x: (Seq<char>, Seq<char>))
    requires
        vars_where(vars, names, false).contains(x),
    ensures
        !names.contains(x.0),
        vars.contains(x),
    decreases vars.len(),
{
    let w = vars_where(vars.drop_last(), names, false);
    if x == vars.last() && !names.contains(vars.last().0) {
        assert(vars[vars.len() - 1] == x);
    } else {
        if !names.contains(vars.last().0) {
            let j = choose|j: int| 0 <= j < w.push(vars.last()).len() && w.push(vars.last())[j] == x;
            assert(w[j] == x);
        }
        lemma_where_outside(vars.drop_last(), names, x);
        let j = choose|j: int| 0 <= j < vars.drop_last().len() && vars.drop_last()[j] == x;
        assert(vars[j] == x);
    }
}

/// A stripped variable is absent: every variable the child receives came from the ambient
/// environment, and none of them is listed by a credential type that is still enforced (deny
/// wins even when an excluded type lists the same variable).
pub proof fn strip_is_absence(
    r: (Seq<(Seq<char>, Seq<char>)>, Seq<(Seq<char>, Seq<char>)>, Seq<Seq<char>>),
    posture: EnvModel,
    c: ResolvedCatalogModel,
    allow: Seq<Seq<char>>,
    vars: Seq<(Seq<char>, Seq<char>)>,
)
    requires
        env_construction_of(r, posture, c, allow, vars),
    ensures
        forall|i: int| 0 <= i < r.0.len() ==> vars.contains(#[trigger] r.0[i]) && !envs_of(enforced_of(c.types, allow)).contains(r.0[i].0),
{
    let strip = envs_of(enforced_of(c.types, allow));
    let remainder = vars_where(vars, strip, false);
    let eff = effective_posture(posture, lifted_raw(c, allow));
    assert forall|i: int| 0 <= i < r.0.len() implies vars.contains(#[trigger] r.0[i]) && !strip.contains(r.0[i].0) by {
        assert(r.0.contains(r.0[i]));
        lemma_kept_from(eff, remainder, r.0[i]);
        lemma_where_outside(vars, strip, r.0[i]);
    }
}

} // verus!
