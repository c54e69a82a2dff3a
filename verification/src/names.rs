//! Name sets and name-keyed maps in canonical (sorted, duplicate-free) order. Iteration follows
//! the string order of the names, which is what keeps every derived artifact deterministic.

use vstd::prelude::*;
use crate::text::{chars_eq, chars_less, chars_lt, lemma_chars_lt_asymmetric, lemma_chars_lt_irreflexive, lemma_chars_lt_total, lemma_chars_lt_transitive};

verus! {

pub open spec fn strs_view(v: Seq<String>) -> Seq<Seq<char>> {
    v.map_values(|s: String| s@)
}

/// Strictly increasing in string order.
pub open spec fn names_sorted(s: Seq<Seq<char>>) -> bool {
    forall|i: int, j: int| 0 <= i < j < s.len() ==> chars_lt(#[trigger] s[i], #[trigger] s[j])
}

/// Two strictly sorted name lists with the same members are the same list.
pub proof fn lemma_names_unique(a: Seq<Seq<char>>, b: Seq<Seq<char>>)
    requires
        names_sorted(a),
        names_sorted(b),
        forall|x: Seq<char>| a.contains(x) <==> b.contains(x),
    ensures
        a == b,
    decreases a.len() + b.len(),
{
    if a.len() == 0 {
        if b.len() > 0 {
            assert(b.contains(b[0]));
        }
        assert(a =~= b);
    } else if b.len() == 0 {
        assert(a.contains(a[0]));
    } else {
        assert(a.contains(a[0]));
        assert(b.contains(b[0]));
        let ia = choose|i: int| 0 <= i < a.len() && a[i] == b[0];
        let ib = choose|i: int| 0 <= i < b.len() && b[i] == a[0];
        if a[0] != b[0] {
            lemma_chars_lt_total(a[0], b[0]);
            if chars_lt(a[0], b[0]) {
                assert(ib > 0);
                assert(chars_lt(b[0], b[ib]));
                lemma_chars_lt_asymmetric(a[0], b[0]);
            } else {
                assert(ia > 0);
                assert(chars_lt(a[0], a[ia]));
                lemma_chars_lt_asymmetric(b[0], a[0]);
            }
        }
        let ta = a.drop_first();
        let tb = b.drop_first();
        assert forall|x: Seq<char>| ta.contains(x) <==> tb.contains(x) by {
            if ta.contains(x) {
                let k = choose|k: int| 0 <= k < ta.len() && ta[k] == x;
                assert(a[k + 1] == x);
                assert(chars_lt(a[0], a[k + 1]));
                lemma_chars_lt_irreflexive(x);
                assert(a.contains(x));
                let m = choose|m: int| 0 <= m < b.len() && b[m] == x;
                assert(m != 0);
                assert(tb[m - 1] == x);
            }
            if tb.contains(x) {
                let k = choose|k: int| 0 <= k < tb.len() && tb[k] == x;
                assert(b[k + 1] == x);
                assert(chars_lt(b[0], b[k + 1]));
                lemma_chars_lt_irreflexive(x);
                assert(b.contains(x));
                let m = choose|m: int| 0 <= m < a.len() && a[m] == x;
                assert(m != 0);
                assert(ta[m - 1] == x);
            }
        }
        lemma_names_unique(ta, tb);
        assert(a =~= seq![a[0]] + ta);
        assert(b =~= seq![b[0]] + tb);
    }
}

/// Is `name` among `v`?
pub fn names_contain(v: &Vec<String>, name: &str) -> (r: bool)
    ensures
        r == strs_view(v@).contains(name@),
{
    let mut i: usize = 0;
    while i < v.len()
        invariant
            i <= v.len(),
            forall|k: int| 0 <= k < i ==> #[trigger] strs_view(v@)[k] != name@,
        decreases v.len() - i,
    {
        if str_eq(v[i].as_str(), name) {
            assert(strs_view(v@)[i as int] == name@);
            return true;
        }
        i = i + 1;
    }
    false
}

/// String equality.
pub fn str_equal(a: &str, b: &str) -> (r: bool)
    ensures
        r == (a@ == b@),
{
    str_eq(a, b)
}

fn str_eq(a: &str, b: &str) -> (r: bool)
    ensures
        r == (a@ == b@),
{
    let x = crate::text::chars_of(a);
    let y = crate::text::chars_of(b);
    chars_eq(x.as_slice(), y.as_slice())
}

/// Appends copies of `src` to `out`.
pub fn append_strings(out: &mut Vec<String>, src: &Vec<String>)
    ensures
        strs_view(final(out)@) == strs_view(old(out)@) + strs_view(src@),
{
    let ghost start = strs_view(out@);
    let mut i: usize = 0;
    while i < src.len()
        invariant
            i <= src.len(),
            strs_view(out@) == start + strs_view(src@).take(i as int),
        decreases src.len() - i,
    {
        let ghost before = strs_view(out@);
        out.push(copy_string(&src[i]));
        assert(strs_view(out@) =~= before.push(src@[i as int]@));
        assert(strs_view(src@).take(i + 1) =~= strs_view(src@).take(i as int).push(src@[i as int]@));
        i = i + 1;
    }
    assert(strs_view(src@).take(src.len() as int) =~= strs_view(src@));
}

/// String order on two strings.
pub fn str_less(a: &str, b: &str) -> (r: bool)
    ensures
        r == chars_lt(a@, b@),
{
    let x = crate::text::chars_of(a);
    let y = crate::text::chars_of(b);
    chars_less(x.as_slice(), y.as_slice())
}

/// A copy of a string.
pub fn copy_string(s: &String) -> (r: String)
    ensures
        r@ == s@,
{
    String::from_str(s.as_str())
}

/// A copy of a list of strings.
pub fn copy_strings(v: &Vec<String>) -> (r: Vec<String>)
    ensures
        strs_view(r@) == strs_view(v@),
{
    let mut r: Vec<String> = Vec::new();
    let mut i: usize = 0;
    while i < v.len()
        invariant
            i <= v.len(),
            r.len() == i,
            strs_view(r@) == strs_view(v@).take(i as int),
        decreases v.len() - i,
    {
        let c = copy_string(&v[i]);
        let ghost before = r@;
        r.push(c);
        assert(r@ == before.push(c));
        i = i + 1;
        assert forall|k: int| 0 <= k < i implies #[trigger] strs_view(r@)[k] == strs_view(v@).take(i as int)[k] by {
            if k < i - 1 {
                assert(strs_view(before)[k] == strs_view(v@).take(i - 1)[k]);
            }
        }
        assert(strs_view(r@) =~= strs_view(v@).take(i as int));
    }
    assert(strs_view(v@).take(v.len() as int) =~= strs_view(v@));
    r
}

fn insert_name(v: &mut Vec<String>, x: String)
    requires
        names_sorted(strs_view(old(v)@)),
    ensures
        names_sorted(strs_view(final(v)@)),
        forall|y: Seq<char>| #[trigger]
            strs_view(final(v)@).contains(y) <==> (strs_view(old(v)@).contains(y) || y == x@),
{
    let ghost ov = strs_view(v@);
    let mut i: usize = 0;
    while i < v.len() && str_less(v[i].as_str(), x.as_str())
        invariant
            ov == strs_view(v@),
            names_sorted(ov),
            i <= v.len(),
            forall|k: int| 0 <= k < i ==> chars_lt(#[trigger] ov[k], x@),
        decreases v.len() - i,
    {
        i = i + 1;
    }
    if i < v.len() && str_eq(v[i].as_str(), x.as_str()) {
        assert(ov[i as int] == x@);
        return;
    }
    proof {
        if i < v.len() {
            lemma_chars_lt_total(ov[i as int], x@);
        }
    }
    v.insert(i, x);
    let ghost nv = strs_view(v@);
    assert(nv =~= ov.insert(i as int, x@));
    assert forall|a: int, b: int| 0 <= a < b < nv.len() implies chars_lt(#[trigger] nv[a], #[trigger] nv[b]) by {
        if b < i {
        } else if a < i && b == i {
        } else if a < i && b > i {
            assert(chars_lt(ov[a], ov[b - 1]));
        } else if a == i {
            assert(chars_lt(x@, ov[i as int]));
            if b - 1 > i {
                assert(chars_lt(ov[i as int], ov[b - 1]));
                lemma_chars_lt_transitive(x@, ov[i as int], ov[b - 1]);
            }
        } else {
            assert(chars_lt(ov[a - 1], ov[b - 1]));
        }
    }
    assert forall|y: Seq<char>| #[trigger] nv.contains(y) <==> (ov.contains(y) || y == x@) by {
        if nv.contains(y) {
            let k = choose|k: int| 0 <= k < nv.len() && nv[k] == y;
            if k < i {
                assert(ov[k] == y);
            } else if k > i {
                assert(ov[k - 1] == y);
            }
        }
        if ov.contains(y) {
            let k = choose|k: int| 0 <= k < ov.len() && ov[k] == y;
            if k < i {
                assert(nv[k] == y);
            } else {
                assert(nv[k + 1] == y);
            }
        }
        if y == x@ {
            assert(nv[i as int] == y);
        }
    }
}

/// The names of `v`, sorted and deduplicated.
pub fn canonical_names(v: &Vec<String>) -> (r: Vec<String>)
    ensures
        names_sorted(strs_view(r@)),
        forall|y: Seq<char>| #[trigger] strs_view(r@).contains(y) <==> strs_view(v@).contains(y),
{
    let ghost input = strs_view(v@);
    let mut out: Vec<String> = Vec::new();
    let mut i: usize = 0;
    while i < v.len()
        invariant
            input == strs_view(v@),
            i <= v.len(),
            names_sorted(strs_view(out@)),
            forall|y: Seq<char>| #[trigger] strs_view(out@).contains(y) <==> input.take(i as int).contains(y),
        decreases v.len() - i,
    {
        insert_name(&mut out, copy_string(&v[i]));
        let ghost tn = input.take(i + 1);
        let ghost tp = input.take(i as int);
        assert(tn =~= tp.push(input[i as int]));
        assert forall|y: Seq<char>| #[trigger] strs_view(out@).contains(y) <==> tn.contains(y) by {
            if tn.contains(y) {
                let k = choose|k: int| 0 <= k < tn.len() && tn[k] == y;
                if k < tp.len() {
                    assert(tp[k] == y);
                }
            }
            if tp.contains(y) {
                let k = choose|k: int| 0 <= k < tp.len() && tp[k] == y;
                assert(tn[k] == y);
            }
            if y == input[i as int] {
                assert(tn[tp.len() as int] == y);
            }
        }
        i = i + 1;
    }
    assert(input.take(v.len() as int) =~= input);
    out
}

/// The members of `a` that `b` also holds, in `a`'s order.
pub open spec fn names_common(a: Seq<Seq<char>>, b: Seq<Seq<char>>) -> Seq<Seq<char>>
    decreases a.len(),
{
    if a.len() == 0 {
        Seq::<Seq<char>>::empty()
    } else if b.contains(a.last()) {
        names_common(a.drop_last(), b).push(a.last())
    } else {
        names_common(a.drop_last(), b)
    }
}

pub proof fn lemma_names_common_contains(a: Seq<Seq<char>>, b: Seq<Seq<char>>, x: Seq<char>)
    ensures
        names_common(a, b).contains(x) <==> (a.contains(x) && b.contains(x)),
    decreases a.len(),
{
    if a.len() > 0 {
        lemma_names_common_contains(a.drop_last(), b, x);
        let c = names_common(a.drop_last(), b);
        if a.contains(x) && x != a.last() {
            let k = choose|k: int| 0 <= k < a.len() && a[k] == x;
            assert(a.drop_last()[k] == x);
        }
        if a.drop_last().contains(x) {
            let k = choose|k: int| 0 <= k < a.drop_last().len() && a.drop_last()[k] == x;
            assert(a[k] == x);
        }
        if b.contains(a.last()) {
            let n = c.push(a.last());
            if n.contains(x) && x != a.last() {
                let k = choose|k: int| 0 <= k < n.len() && n[k] == x;
                assert(c[k] == x);
            }
            if c.contains(x) {
                let k = choose|k: int| 0 <= k < c.len() && c[k] == x;
                assert(n[k] == x);
            }
            assert(n[c.len() as int] == a.last());
        }
        assert(a[a.len() - 1] == a.last());
    }
}

/// The names of `a` that `b` also holds, in `a`'s order (repetitions in `a` kept).
pub fn common_names(a: &Vec<String>, b: &Vec<String>) -> (r: Vec<String>)
    ensures
        strs_view(r@) == names_common(strs_view(a@), strs_view(b@)),
{
    let mut out: Vec<String> = Vec::new();
    let mut i: usize = 0;
    while i < a.len()
        invariant
            i <= a.len(),
            strs_view(out@) == names_common(strs_view(a@).take(i as int), strs_view(b@)),
        decreases a.len() - i,
    {
        let ghost t = strs_view(a@).take(i + 1);
        assert(t.drop_last() =~= strs_view(a@).take(i as int));
        assert(t.last() == a@[i as int]@);
        if names_contain(b, a[i].as_str()) {
            out.push(copy_string(&a[i]));
        }
        i = i + 1;
        assert(strs_view(out@) =~= names_common(strs_view(a@).take(i as int), strs_view(b@)));
    }
    assert(strs_view(a@).take(a.len() as int) =~= strs_view(a@));
    out
}

// ---------------------------------------------------------------------------------------------
// Port sets

/// Strictly increasing.
pub open spec fn ports_sorted(s: Seq<u16>) -> bool {
    forall|i: int, j: int| 0 <= i < j < s.len() ==> #[trigger] s[i] < #[trigger] s[j]
}

pub proof fn lemma_ports_unique(a: Seq<u16>, b: Seq<u16>)
    requires
        ports_sorted(a),
        ports_sorted(b),
        forall|x: u16| a.contains(x) <==> b.contains(x),
    ensures
        a == b,
    decreases a.len() + b.len(),
{
    if a.len() == 0 {
        if b.len() > 0 {
            assert(b.contains(b[0]));
        }
        assert(a =~= b);
    } else if b.len() == 0 {
        assert(a.contains(a[0]));
    } else {
        assert(a.contains(a[0]));
        assert(b.contains(b[0]));
        let ia = choose|i: int| 0 <= i < a.len() && a[i] == b[0];
        let ib = choose|i: int| 0 <= i < b.len() && b[i] == a[0];
        if a[0] != b[0] {
            if a[0] < b[0] {
                assert(ib > 0);
                assert(b[0] < b[ib]);
            } else {
                assert(ia > 0);
                assert(a[0] < a[ia]);
            }
        }
        let ta = a.drop_first();
        let tb = b.drop_first();
        assert forall|x: u16| ta.contains(x) <==> tb.contains(x) by {
            if ta.contains(x) {
                let k = choose|k: int| 0 <= k < ta.len() && ta[k] == x;
                assert(a[k + 1] == x);
                assert(a[0] < a[k + 1]);
                assert(a.contains(x));
                let m = choose|m: int| 0 <= m < b.len() && b[m] == x;
                assert(m != 0);
                assert(tb[m - 1] == x);
            }
            if tb.contains(x) {
                let k = choose|k: int| 0 <= k < tb.len() && tb[k] == x;
                assert(b[k + 1] == x);
                assert(b[0] < b[k + 1]);
                assert(b.contains(x));
                let m = choose|m: int| 0 <= m < a.len() && a[m] == x;
                assert(m != 0);
                assert(ta[m - 1] == x);
            }
        }
        lemma_ports_unique(ta, tb);
        assert(a =~= seq![a[0]] + ta);
        assert(b =~= seq![b[0]] + tb);
    }
}

/// The ports of `v`, sorted and deduplicated.
pub fn canonical_ports(v: &Vec<u16>) -> (r: Vec<u16>)
    ensures
        ports_sorted(r@),
        forall|y: u16| #[trigger] r@.contains(y) <==> v@.contains(y),
{
    let mut out: Vec<u16> = Vec::new();
    let mut i: usize = 0;
    while i < v.len()
        invariant
            i <= v.len(),
            ports_sorted(out@),
            forall|y: u16| #[trigger] out@.contains(y) <==> v@.take(i as int).contains(y),
        decreases v.len() - i,
    {
        let x = v[i];
        let ghost ov = out@;
        let mut j: usize = 0;
        while j < out.len() && out[j] < x
            invariant
                ov == out@,
                j <= out.len(),
                forall|k: int| 0 <= k < j ==> #[trigger] ov[k] < x,
            decreases out.len() - j,
        {
            j = j + 1;
        }
        if !(j < out.len() && out[j] == x) {
            out.insert(j, x);
            let ghost nv = out@;
            assert(nv =~= ov.insert(j as int, x));
            assert forall|a: int, b: int| 0 <= a < b < nv.len() implies #[trigger] nv[a] < #[trigger] nv[b] by {
                if b < j {
                } else if a < j && b == j {
                } else if a < j && b > j {
                    assert(ov[a] < ov[b - 1]);
                } else if a == j {
                    assert(ov[b - 1] >= ov[j as int]);
                } else {
                    assert(ov[a - 1] < ov[b - 1]);
                }
            }
        }
        let ghost tn = v@.take(i + 1);
        let ghost tp = v@.take(i as int);
        assert(tn =~= tp.push(x));
        assert forall|y: u16| #[trigger] out@.contains(y) <==> tn.contains(y) by {
            if tn.contains(y) {
                let k = choose|k: int| 0 <= k < tn.len() && tn[k] == y;
                if k < tp.len() {
                    assert(tp[k] == y);
                }
            }
            if tp.contains(y) {
                let k = choose|k: int| 0 <= k < tp.len() && tp[k] == y;
                assert(tn[k] == y);
            }
            if y == x {
                assert(tn[tp.len() as int] == y);
            }
            if out@ != ov {
                if out@.contains(y) {
                    let k = choose|k: int| 0 <= k < out@.len() && out@[k] == y;
                    if k < j {
                        assert(ov[k] == y);
                    } else if k > j {
                        assert(ov[k - 1] == y);
                    }
                }
                if ov.contains(y) {
                    let k = choose|k: int| 0 <= k < ov.len() && ov[k] == y;
                    if k < j {
                        assert(out@[k] == y);
                    } else {
                        assert(out@[k + 1] == y);
                    }
                }
                if y == x {
                    assert(out@[j as int] == y);
                }
            } else {
                if y == x {
                    assert(out@[j as int] == y);
                }
            }
        }
        i = i + 1;
    }
    assert(v@.take(v.len() as int) =~= v@);
    out
}


// ---------------------------------------------------------------------------------------------
// Name-keyed maps

/// The keys of a keyed listing, in order.
pub open spec fn map_keys<VV>(s: Seq<(Seq<char>, VV)>) -> Seq<Seq<char>> {
    s.map_values(|e: (Seq<char>, VV)| e.0)
}

/// The value stored under `k`, if any (the last entry with that key).
pub open spec fn map_get<VV>(s: Seq<(Seq<char>, VV)>, k: Seq<char>) -> Option<VV>
    decreases s.len(),
{
    if s.len() == 0 {
        None
    } else if s.last().0 == k {
        Some(s.last().1)
    } else {
        map_get(s.drop_last(), k)
    }
}

/// In a listing with strictly sorted keys, the entry at `i` is what `map_get` finds.
pub proof fn lemma_map_get_at<VV>(s: Seq<(Seq<char>, VV)>, i: int)
    requires
        names_sorted(map_keys(s)),
        0 <= i < s.len(),
    ensures
        map_get(s, s[i].0) == Some(s[i].1),
    decreases s.len(),
{
    if i < s.len() - 1 {
        assert(chars_lt(map_keys(s)[i], map_keys(s)[s.len() - 1]));
        lemma_chars_lt_irreflexive(s[i].0);
        let t = s.drop_last();
        assert(map_keys(t) =~= map_keys(s).drop_last());
        assert(t[i] == s[i]);
        lemma_map_get_at(t, i);
    }
}

/// Sorted keys are distinct.
pub proof fn lemma_keys_distinct<VV>(s: Seq<(Seq<char>, VV)>, j: int, i: int)
    requires
        names_sorted(map_keys(s)),
        0 <= j < i < s.len(),
    ensures
        s[j].0 != s[i].0,
{
    assert(chars_lt(map_keys(s)[j], map_keys(s)[i]));
    lemma_chars_lt_irreflexive(s[i].0);
}

/// A key held by no entry maps to nothing.
pub proof fn lemma_map_get_none<VV>(s: Seq<(Seq<char>, VV)>, k: Seq<char>)
    requires
        forall|j: int| 0 <= j < s.len() ==> #[trigger] s[j].0 != k,
    ensures
        map_get(s, k) is None,
    decreases s.len(),
{
    if s.len() > 0 {
        let t = s.drop_last();
        assert forall|j: int| 0 <= j < t.len() implies #[trigger] t[j].0 != k by {
            assert(t[j] == s[j]);
        }
        lemma_map_get_none(t, k);
    }
}

/// What `map_get` finds is stored at some position.
pub proof fn lemma_map_get_some<VV>(s: Seq<(Seq<char>, VV)>, k: Seq<char>)
    requires
        map_get(s, k) is Some,
    ensures
        exists|j: int| 0 <= j < s.len() && #[trigger] s[j].0 == k && Some(s[j].1) == map_get(s, k),
    decreases s.len(),
{
    if s.last().0 == k {
        assert(s[s.len() - 1].0 == k);
    } else {
        let t = s.drop_last();
        lemma_map_get_some(t, k);
        let j = choose|j: int| 0 <= j < t.len() && #[trigger] t[j].0 == k && Some(t[j].1) == map_get(t, k);
        assert(s[j] == t[j]);
    }
}

/// Two keyed listings with strictly sorted keys that agree on every key are the same listing.
pub proof fn lemma_map_unique<VV>(a: Seq<(Seq<char>, VV)>, b: Seq<(Seq<char>, VV)>)
    requires
        names_sorted(map_keys(a)),
        names_sorted(map_keys(b)),
        forall|k: Seq<char>| map_get(a, k) == map_get(b, k),
    ensures
        a == b,
{
    assert forall|k: Seq<char>| map_keys(a).contains(k) <==> map_keys(b).contains(k) by {
        if map_keys(a).contains(k) {
            let i = choose|i: int| 0 <= i < map_keys(a).len() && map_keys(a)[i] == k;
            lemma_map_get_at(a, i);
            lemma_map_get_some(b, k);
            let j = choose|j: int| 0 <= j < b.len() && #[trigger] b[j].0 == k && Some(b[j].1) == map_get(b, k);
            assert(map_keys(b)[j] == k);
        }
        if map_keys(b).contains(k) {
            let i = choose|i: int| 0 <= i < map_keys(b).len() && map_keys(b)[i] == k;
            lemma_map_get_at(b, i);
            lemma_map_get_some(a, k);
            let j = choose|j: int| 0 <= j < a.len() && #[trigger] a[j].0 == k && Some(a[j].1) == map_get(a, k);
            assert(map_keys(a)[j] == k);
        }
    }
    lemma_names_unique(map_keys(a), map_keys(b));
    assert forall|i: int| 0 <= i < a.len() implies a[i] == b[i] by {
        assert(map_keys(a)[i] == map_keys(b)[i]);
        lemma_map_get_at(a, i);
        lemma_map_get_at(b, i);
    }
    assert(a =~= b);
}

/// A map from names to values, kept in name order.
#[derive(Debug, PartialEq, Eq)]
pub struct NameMap<V: View> {
    entries: Vec<(String, V)>,
}

impl<V: View> View for NameMap<V> {
    type V = Seq<(Seq<char>, V::V)>;

    closed spec fn view(&self) -> Seq<(Seq<char>, V::V)> {
        self.entries@.map_values(|e: (String, V)| (e.0@, e.1@))
    }
}

impl<V: View> NameMap<V> {
    #[verifier::type_invariant]
    spec fn keys_in_order(self) -> bool {
        names_sorted(map_keys(self.entries@.map_values(|e: (String, V)| (e.0@, e.1@))))
    }

    pub fn new() -> (r: NameMap<V>)
        ensures
            r@ == Seq::<(Seq<char>, V::V)>::empty(),
    {
        let r = NameMap { entries: Vec::new() };
        assert(r@ =~= Seq::<(Seq<char>, V::V)>::empty());
        r
    }

    /// The number of entries; the keys are in strict name order.
    pub fn len(&self) -> (r: usize)
        ensures
            r == self@.len(),
            names_sorted(map_keys(self@)),
    {
        proof {
            use_type_invariant(self);
        }
        self.entries.len()
    }

    pub fn is_empty(&self) -> (r: bool)
        ensures
            r == (self@.len() == 0),
    {
        self.entries.len() == 0
    }

    /// The key of the `i`-th entry.
    pub fn key(&self, i: usize) -> (r: &String)
        requires
            i < self@.len(),
        ensures
            r@ == self@[i as int].0,
    {
        &self.entries[i].0
    }

    /// The value of the `i`-th entry.
    pub fn value(&self, i: usize) -> (r: &V)
        requires
            i < self@.len(),
        ensures
            r@ == self@[i as int].1,
    {
        &self.entries[i].1
    }

    /// The value stored under `name`.
    pub fn get(&self, name: &str) -> (r: Option<&V>)
        ensures
            match r {
                Some(v) => map_get(self@, name@) == Some(v@),
                None => map_get(self@, name@) is None,
            },
    {
        proof {
            use_type_invariant(self);
        }
        let mut i: usize = 0;
        while i < self.entries.len()
            invariant
                i <= self@.len(),
                self.entries.len() == self@.len(),
                names_sorted(map_keys(self@)),
                forall|k: int| 0 <= k < i ==> #[trigger] self@[k].0 != name@,
            decreases self.entries.len() - i,
        {
            if str_eq(self.entries[i].0.as_str(), name) {
                proof {
                    lemma_map_get_at(self@, i as int);
                }
                return Some(&self.entries[i].1);
            }
            i = i + 1;
        }
        proof {
            lemma_map_get_none(self@, name@);
        }
        None
    }

    /// Is there an entry under `name`?
    pub fn contains_key(&self, name: &str) -> (r: bool)
        ensures
            r == (map_get(self@, name@) is Some),
    {
        self.get(name).is_some()
    }

    /// Appends an entry whose name follows every name already present.
    pub fn push_last(&mut self, name: String, value: V)
        requires
            old(self)@.len() == 0 || chars_lt(old(self)@.last().0, name@),
        ensures
            final(self)@ == old(self)@.push((name@, value@)),
    {
        proof {
            use_type_invariant(&*self);
        }
        let ghost ov = self@;
        let ghost nm = name@;
        let ghost vv = value@;
        let mut e: Vec<(String, V)> = Vec::new();
        std::mem::swap(&mut e, &mut self.entries);
        assert(e@.map_values(|x: (String, V)| (x.0@, x.1@)) == ov);
        e.push((name, value));
        let ghost nv = e@.map_values(|x: (String, V)| (x.0@, x.1@));
        assert(nv =~= ov.push((nm, vv)));
        let ghost ok = map_keys(ov);
        let ghost nk = map_keys(nv);
        assert(nk =~= ok.push(nm));
        assert forall|a: int, b: int| 0 <= a < b < nk.len() implies chars_lt(#[trigger] nk[a], #[trigger] nk[b]) by {
            if b < ok.len() {
                assert(chars_lt(ok[a], ok[b]));
            } else if a < ok.len() - 1 {
                assert(chars_lt(ok[a], ok[ok.len() - 1]));
                lemma_chars_lt_transitive(ok[a], ok[ok.len() - 1], nm);
            }
        }
        self.entries = e;
    }

    /// Stores `value` under `name`, replacing what was there.
    pub fn insert(&mut self, name: String, value: V)
        ensures
            names_sorted(map_keys(final(self)@)),
            forall|k: Seq<char>| #[trigger] map_get(final(self)@, k) == if k == name@ {
                Some(value@)
            } else {
                map_get(old(self)@, k)
            },
    {
        proof {
            use_type_invariant(&*self);
        }
        let ghost ov = self@;
        let mut e: Vec<(String, V)> = Vec::new();
        std::mem::swap(&mut e, &mut self.entries);
        assert(e@.map_values(|x: (String, V)| (x.0@, x.1@)) == ov);
        let mut i: usize = 0;
        while i < e.len() && str_less(e[i].0.as_str(), name.as_str())
            invariant
                e@.map_values(|x: (String, V)| (x.0@, x.1@)) == ov,
                names_sorted(map_keys(ov)),
                i <= e.len(),
                forall|k: int| 0 <= k < i ==> chars_lt(#[trigger] ov[k].0, name@),
            decreases e.len() - i,
        {
            i = i + 1;
        }
        let ghost nm = name@;
        let ghost vv = value@;
        if i < e.len() && str_eq(e[i].0.as_str(), name.as_str()) {
            e.set(i, (name, value));
            let ghost nv = e@.map_values(|x: (String, V)| (x.0@, x.1@));
            assert(nv =~= ov.update(i as int, (nm, vv)));
            assert(map_keys(nv) =~= map_keys(ov));
            assert forall|k: Seq<char>| #[trigger] map_get(nv, k) == if k == nm { Some(vv) } else { map_get(ov, k) } by {
                lemma_map_get_at(nv, i as int);
                if k != nm {
                    if map_get(ov, k) is Some {
                        lemma_map_get_some(ov, k);
                        let j = choose|j: int| 0 <= j < ov.len() && #[trigger] ov[j].0 == k && Some(ov[j].1) == map_get(ov, k);
                        assert(nv[j] == ov[j]);
                        lemma_map_get_at(nv, j);
                    } else {
                        assert forall|j: int| 0 <= j < ov.len() implies #[trigger] ov[j].0 != k by {
                            if ov[j].0 == k {
                                lemma_map_get_at(ov, j);
                            }
                        }
                        assert forall|j: int| 0 <= j < nv.len() implies #[trigger] nv[j].0 != k by {
                            if j != i {
                                assert(nv[j] == ov[j]);
                            }
                        }
                        lemma_map_get_none(nv, k);
                    }
                }
            }
        } else {
            proof {
                if i < e.len() {
                    lemma_chars_lt_total(ov[i as int].0, nm);
                }
            }
            e.insert(i, (name, value));
            let ghost nv = e@.map_values(|x: (String, V)| (x.0@, x.1@));
            assert(nv =~= ov.insert(i as int, (nm, vv)));
            let ghost ok = map_keys(ov);
            let ghost nk = map_keys(nv);
            assert(nk =~= ok.insert(i as int, nm));
            assert forall|a: int, b: int| 0 <= a < b < nk.len() implies chars_lt(#[trigger] nk[a], #[trigger] nk[b]) by {
                if b < i {
                    assert(chars_lt(ok[a], ok[b]));
                } else if a < i && b == i {
                    assert(chars_lt(ov[a].0, nm));
                } else if a < i && b > i {
                    assert(chars_lt(ok[a], ok[b - 1]));
                } else if a == i {
                    assert(chars_lt(nm, ok[i as int]));
                    if b - 1 > i {
                        assert(chars_lt(ok[i as int], ok[b - 1]));
                        lemma_chars_lt_transitive(nm, ok[i as int], ok[b - 1]);
                    }
                } else {
                    assert(chars_lt(ok[a - 1], ok[b - 1]));
                }
            }
            assert forall|k: Seq<char>| #[trigger] map_get(nv, k) == if k == nm { Some(vv) } else { map_get(ov, k) } by {
                lemma_map_get_at(nv, i as int);
                if k != nm {
                    if map_get(ov, k) is Some {
                        lemma_map_get_some(ov, k);
                        let j = choose|j: int| 0 <= j < ov.len() && #[trigger] ov[j].0 == k && Some(ov[j].1) == map_get(ov, k);
                        if j < i {
                            assert(nv[j] == ov[j]);
                            lemma_map_get_at(nv, j);
                        } else {
                            assert(nv[j + 1] == ov[j]);
                            lemma_map_get_at(nv, j + 1);
                        }
                    } else {
                        assert forall|j: int| 0 <= j < ov.len() implies #[trigger] ov[j].0 != k by {
                            if ov[j].0 == k {
                                lemma_map_get_at(ov, j);
                            }
                        }
                        assert forall|j: int| 0 <= j < nv.len() implies #[trigger] nv[j].0 != k by {
                            if j < i {
                                assert(nv[j] == ov[j]);
                            } else if j > i {
                                assert(nv[j] == ov[j - 1]);
                            }
                        }
                        lemma_map_get_none(nv, k);
                    }
                }
            }
        }
        self.entries = e;
    }
}


impl<V: View> NameMap<V> {
    /// The position of the entry under `name`, if any.
    fn position(&self, name: &str) -> (r: Option<usize>)
        ensures
            match r {
                Some(i) => i < self@.len() && self@[i as int].0 == name@,
                None => forall|j: int| 0 <= j < self@.len() ==> #[trigger] self@[j].0 != name@,
            },
    {
        let mut i: usize = 0;
        while i < self.entries.len()
            invariant
                i <= self@.len(),
                self.entries.len() == self@.len(),
                forall|k: int| 0 <= k < i ==> #[trigger] self@[k].0 != name@,
            decreases self.entries.len() - i,
        {
            if str_eq(self.entries[i].0.as_str(), name) {
                return Some(i);
            }
            i = i + 1;
        }
        None
    }

    /// Takes out the value stored under `name`, leaving every other entry.
    pub fn remove(&mut self, name: &str) -> (r: Option<V>)
        ensures
            names_sorted(map_keys(final(self)@)),
            match r {
                Some(v) => map_get(old(self)@, name@) == Some(v@),
                None => map_get(old(self)@, name@) is None,
            },
            forall|k: Seq<char>| #[trigger] map_get(final(self)@, k) == if k == name@ {
                None
            } else {
                map_get(old(self)@, k)
            },
    {
        proof {
            use_type_invariant(&*self);
        }
        let ghost ov = self@;
        let pos = self.position(name);
        match pos {
            None => {
                proof {
                    lemma_map_get_none(ov, name@);
                    assert forall|k: Seq<char>| #[trigger] map_get(ov, k) == if k == name@ { None } else { map_get(ov, k) } by {}
                }
                None
            },
            Some(i) => {
                let mut e: Vec<(String, V)> = Vec::new();
                std::mem::swap(&mut e, &mut self.entries);
                assert(e@.map_values(|x: (String, V)| (x.0@, x.1@)) == ov);
                let taken = e.remove(i);
                let ghost nv = e@.map_values(|x: (String, V)| (x.0@, x.1@));
                assert(nv =~= ov.remove(i as int));
                let ghost ok = map_keys(ov);
                let ghost nk = map_keys(nv);
                assert(nk =~= ok.remove(i as int));
                assert forall|a: int, b: int| 0 <= a < b < nk.len() implies chars_lt(#[trigger] nk[a], #[trigger] nk[b]) by {
                    if b < i {
                        assert(chars_lt(ok[a], ok[b]));
                    } else if a < i {
                        assert(chars_lt(ok[a], ok[b + 1]));
                    } else {
                        assert(chars_lt(ok[a + 1], ok[b + 1]));
                    }
                }
                proof {
                    lemma_map_get_at(ov, i as int);
                    assert forall|k: Seq<char>| #[trigger] map_get(nv, k) == if k == name@ { None } else { map_get(ov, k) } by {
                        if k == name@ {
                            assert forall|j: int| 0 <= j < nv.len() implies #[trigger] nv[j].0 != k by {
                                if j < i {
                                    assert(nv[j] == ov[j]);
                                    lemma_keys_distinct(ov, j, i as int);
                                } else {
                                    assert(nv[j] == ov[j + 1]);
                                    lemma_keys_distinct(ov, i as int, j + 1);
                                }
                            }
                            lemma_map_get_none(nv, k);
                        } else if map_get(ov, k) is Some {
                            lemma_map_get_some(ov, k);
                            let j = choose|j: int| 0 <= j < ov.len() && #[trigger] ov[j].0 == k && Some(ov[j].1) == map_get(ov, k);
                            if j < i {
                                assert(nv[j] == ov[j]);
                                lemma_map_get_at(nv, j);
                            } else {
                                assert(j != i);
                                assert(nv[j - 1] == ov[j]);
                                lemma_map_get_at(nv, j - 1);
                            }
                        } else {
                            assert forall|j: int| 0 <= j < ov.len() implies #[trigger] ov[j].0 != k by {
                                if ov[j].0 == k {
                                    lemma_map_get_at(ov, j);
                                }
                            }
                            assert forall|j: int| 0 <= j < nv.len() implies #[trigger] nv[j].0 != k by {
                                if j < i {
                                    assert(nv[j] == ov[j]);
                                } else {
                                    assert(nv[j] == ov[j + 1]);
                                }
                            }
                            lemma_map_get_none(nv, k);
                        }
                    }
                }
                self.entries = e;
                Some(taken.1)
            },
        }
    }
}

impl<V: View + Clone> Clone for NameMap<V> {
    /// A copy with the same names in the same order (each value cloned).
    fn clone(&self) -> (r: Self)
        ensures
            map_keys(r@) == map_keys(self@),
    {
        proof {
            use_type_invariant(self);
        }
        let mut entries: Vec<(String, V)> = Vec::new();
        let mut i: usize = 0;
        while i < self.entries.len()
            invariant
                i <= self.entries.len(),
                entries.len() == i,
                forall|j: int| 0 <= j < i ==> #[trigger] entries@[j].0@ == self.entries@[j].0@,
            decreases self.entries.len() - i,
        {
            let k = copy_string(&self.entries[i].0);
            let v = self.entries[i].1.clone();
            entries.push((k, v));
            i = i + 1;
        }
        assert(map_keys(entries@.map_values(|e: (String, V)| (e.0@, e.1@))) =~= map_keys(self@));
        let r = NameMap { entries };
        r
    }
}

} // verus!
