//! String-keyed association lists kept in ascending key order (the catalog's
//! maps), and ascending string sets without repeats (its sets).

use vstd::prelude::*;
use crate::json::{fields_get, fields_index, fields_insert, insert_pos, lemma_fields_index, lemma_insert_pos};
use crate::text::{seq_lt, str_eq, str_lt};

verus! {

/// The keys of an association list by view, values as they are.
pub open spec fn kv_view<T>(s: Seq<(String, T)>) -> Seq<(Seq<char>, T)> {
    s.map_values(|p: (String, T)| (p.0@, p.1))
}

/// Applies `f` to every value of an association list.
pub open spec fn map_vals<T, U>(s: Seq<(Seq<char>, T)>, f: spec_fn(T) -> U) -> Seq<(Seq<char>, U)> {
    s.map_values(|p: (Seq<char>, T)| (p.0, f(p.1)))
}

proof fn lemma_map_vals_index<T, U>(s: Seq<(Seq<char>, T)>, f: spec_fn(T) -> U, k: Seq<char>)
    ensures
        fields_index(map_vals(s, f), k) == fields_index(s, k),
        insert_pos(map_vals(s, f), k) == insert_pos(s, k),
    decreases s.len(),
{
    if s.len() > 0 {
        assert(map_vals(s, f).drop_first() =~= map_vals(s.drop_first(), f));
        lemma_map_vals_index(s.drop_first(), f, k);
    }
}

/// Setting a key commutes with mapping the values.
pub proof fn lemma_map_vals_insert<T, U>(s: Seq<(Seq<char>, T)>, f: spec_fn(T) -> U, k: Seq<char>, v: T)
    ensures
        map_vals(fields_insert(s, k, v), f) == fields_insert(map_vals(s, f), k, f(v)),
{
    lemma_map_vals_index(s, f, k);
    lemma_fields_index(s, k);
    lemma_insert_pos(s, k);
    assert(map_vals(fields_insert(s, k, v), f) =~= fields_insert(map_vals(s, f), k, f(v)));
}

/// Looking a key up commutes with mapping the values.
pub proof fn lemma_map_vals_get<T, U>(s: Seq<(Seq<char>, T)>, f: spec_fn(T) -> U, k: Seq<char>)
    ensures
        fields_get(map_vals(s, f), k) == match fields_get(s, k) {
            Some(v) => Some(f(v)),
            None => None,
        },
{
    lemma_map_vals_index(s, f, k);
    lemma_fields_index(s, k);
    lemma_fields_index(map_vals(s, f), k);
}

/// The position of `key` in an association list.
pub fn assoc_index<T>(v: &Vec<(String, T)>, key: &str) -> (r: Option<usize>)
    ensures
        r matches Some(i) ==> fields_index(kv_view(v@), key@) == Some(i as int) && i < v@.len(),
        r is None ==> fields_index(kv_view(v@), key@) is None,
{
    let ghost kv = kv_view(v@);
    proof {
        lemma_fields_index(kv, key@);
    }
    let mut i: usize = 0;
    while i < v.len()
        invariant
            i <= v@.len(),
            kv == kv_view(v@),
            kv.len() == v@.len(),
            forall|j: int| 0 <= j < i ==> kv[j].0 != key@,
            fields_index(kv, key@) matches Some(x) ==> 0 <= x < kv.len() && kv[x].0 == key@ && forall|j: int|
                0 <= j < x ==> kv[j].0 != key@,
            fields_index(kv, key@) is None ==> forall|j: int| 0 <= j < kv.len() ==> kv[j].0 != key@,
        decreases v@.len() - i,
    {
        if str_eq(v[i].0.as_str(), key) {
            proof {
                assert(kv[i as int].0 == key@);
            }
            return Some(i);
        }
        i = i + 1;
    }
    None
}

/// Sets `key` to `value` (see `fields_insert`).
pub fn assoc_insert<T>(v: &mut Vec<(String, T)>, key: String, value: T)
    ensures
        kv_view(final(v)@) == fields_insert(kv_view(old(v)@), key@, value),
{
    let ghost kv = kv_view(v@);
    let ghost k = key@;
    match assoc_index(v, key.as_str()) {
        Some(i) => {
            v.set(i, (key, value));
            proof {
                assert(kv_view(v@) =~= kv.update(i as int, (k, value)));
            }
        },
        None => {
            proof {
                lemma_insert_pos(kv, k);
            }
            let mut p: usize = 0;
            while p < v.len() && str_lt(v[p].0.as_str(), key.as_str())
                invariant
                    p <= v@.len(),
                    kv == kv_view(v@),
                    kv.len() == v@.len(),
                    k == key@,
                    insert_pos(kv, k) >= p,
                    forall|j: int| 0 <= j < p ==> seq_lt(#[trigger] kv[j].0, k),
                decreases v@.len() - p,
            {
                proof {
                    lemma_pos_step(kv, k, p as int);
                }
                p = p + 1;
            }
            proof {
                lemma_pos_stop(kv, k, p as int);
            }
            v.insert(p, (key, value));
            proof {
                assert(kv_view(v@) =~= kv.insert(p as int, (k, value)));
            }
        },
    }
}

proof fn lemma_pos_step<V>(fs: Seq<(Seq<char>, V)>, k: Seq<char>, p: int)
    requires
        0 <= p < fs.len(),
        forall|j: int| 0 <= j <= p ==> seq_lt(#[trigger] fs[j].0, k),
    ensures
        insert_pos(fs, k) >= p + 1,
    decreases p,
{
    let rest = fs.drop_first();
    assert(seq_lt(fs[0].0, k));
    lemma_insert_pos(rest, k);
    if p > 0 {
        assert forall|j: int| 0 <= j <= p - 1 implies seq_lt(#[trigger] rest[j].0, k) by {
            assert(rest[j] == fs[j + 1]);
        }
        lemma_pos_step(rest, k, p - 1);
    }
}

proof fn lemma_pos_stop<V>(fs: Seq<(Seq<char>, V)>, k: Seq<char>, p: int)
    requires
        0 <= p <= fs.len(),
        forall|j: int| 0 <= j < p ==> seq_lt(#[trigger] fs[j].0, k),
        p == fs.len() || !seq_lt(fs[p].0, k),
    ensures
        insert_pos(fs, k) == p,
    decreases p,
{
    if p > 0 {
        let rest = fs.drop_first();
        assert forall|j: int| 0 <= j < p - 1 implies seq_lt(#[trigger] rest[j].0, k) by {
            assert(rest[j] == fs[j + 1]);
        }
        if p < fs.len() {
            assert(rest[p - 1] == fs[p]);
        }
        lemma_pos_stop(rest, k, p - 1);
    }
}

/// Where `x` belongs in an ascending sequence: before the first element not less than it.
pub open spec fn set_pos(s: Seq<Seq<char>>, x: Seq<char>) -> int
    decreases s.len(),
{
    if s.len() == 0 {
        0
    } else if !seq_lt(s[0], x) {
        0
    } else {
        set_pos(s.drop_first(), x) + 1
    }
}

/// `s` with `x` added (`BTreeSet::insert`): unchanged if `x` is there already,
/// otherwise `x` goes where it belongs in ascending order.
pub open spec fn set_insert(s: Seq<Seq<char>>, x: Seq<char>) -> Seq<Seq<char>> {
    if s.contains(x) {
        s
    } else {
        s.insert(set_pos(s, x), x)
    }
}

/// The set of the elements of `s` (`collect` into a `BTreeSet`).
pub open spec fn set_of(s: Seq<Seq<char>>) -> Seq<Seq<char>>
    decreases s.len(),
{
    if s.len() == 0 {
        Seq::empty()
    } else {
        set_insert(set_of(s.drop_last()), s.last())
    }
}

/// Every element of `s` added to `acc`, in order (`Extend` for a `BTreeSet`).
pub open spec fn set_extend(acc: Seq<Seq<char>>, s: Seq<Seq<char>>) -> Seq<Seq<char>>
    decreases s.len(),
{
    if s.len() == 0 {
        acc
    } else {
        set_insert(set_extend(acc, s.drop_last()), s.last())
    }
}

proof fn lemma_set_pos(s: Seq<Seq<char>>, x: Seq<char>)
    ensures
        0 <= set_pos(s, x) <= s.len(),
    decreases s.len(),
{
    if s.len() > 0 && seq_lt(s[0], x) {
        lemma_set_pos(s.drop_first(), x);
    }
}

/// Whether `v` holds `x`.
pub fn contains_str(v: &Vec<String>, x: &str) -> (r: bool)
    ensures
        r == v@.map_values(|s: String| s@).contains(x@),
{
    let ghost vv = v@.map_values(|s: String| s@);
    let mut i: usize = 0;
    while i < v.len()
        invariant
            i <= v@.len(),
            vv == v@.map_values(|s: String| s@),
            forall|j: int| 0 <= j < i ==> vv[j] != x@,
        decreases v@.len() - i,
    {
        if str_eq(v[i].as_str(), x) {
            proof {
                assert(vv[i as int] == x@);
            }
            return true;
        }
        i = i + 1;
    }
    false
}

/// Adds `x` to the ascending set `v` (see `set_insert`).
pub fn set_add(v: &mut Vec<String>, x: String)
    ensures
        final(v)@.map_values(|s: String| s@) == set_insert(old(v)@.map_values(|s: String| s@), x@),
{
    let ghost vv = v@.map_values(|s: String| s@);
    let ghost xv = x@;
    if contains_str(v, x.as_str()) {
        return;
    }
    proof {
        lemma_set_pos(vv, xv);
    }
    let mut p: usize = 0;
    while p < v.len() && str_lt(v[p].as_str(), x.as_str())
        invariant
            p <= v@.len(),
            vv == v@.map_values(|s: String| s@),
            xv == x@,
            set_pos(vv, xv) >= p,
            forall|j: int| 0 <= j < p ==> seq_lt(#[trigger] vv[j], xv),
        decreases v@.len() - p,
    {
        proof {
            lemma_set_pos_step(vv, xv, p as int);
        }
        p = p + 1;
    }
    proof {
        lemma_set_pos_stop(vv, xv, p as int);
    }
    v.insert(p, x);
    proof {
        assert(v@.map_values(|s: String| s@) =~= vv.insert(p as int, xv));
    }
}

proof fn lemma_set_pos_step(s: Seq<Seq<char>>, x: Seq<char>, p: int)
    requires
        0 <= p < s.len(),
        forall|j: int| 0 <= j <= p ==> seq_lt(#[trigger] s[j], x),
    ensures
        set_pos(s, x) >= p + 1,
    decreases p,
{
    let rest = s.drop_first();
    assert(seq_lt(s[0], x));
    lemma_set_pos(rest, x);
    if p > 0 {
        assert forall|j: int| 0 <= j <= p - 1 implies seq_lt(#[trigger] rest[j], x) by {
            assert(rest[j] == s[j + 1]);
        }
        lemma_set_pos_step(rest, x, p - 1);
    }
}

proof fn lemma_set_pos_stop(s: Seq<Seq<char>>, x: Seq<char>, p: int)
    requires
        0 <= p <= s.len(),
        forall|j: int| 0 <= j < p ==> seq_lt(#[trigger] s[j], x),
        p == s.len() || !seq_lt(s[p], x),
    ensures
        set_pos(s, x) == p,
    decreases p,
{
    if p > 0 {
        let rest = s.drop_first();
        assert forall|j: int| 0 <= j < p - 1 implies seq_lt(#[trigger] rest[j], x) by {
            assert(rest[j] == s[j + 1]);
        }
        if p < s.len() {
            assert(rest[p - 1] == s[p]);
        }
        lemma_set_pos_stop(rest, x, p - 1);
    }
}

/// Adds every element of `xs` to the ascending set `v`, in order.
pub fn set_add_all(v: &mut Vec<String>, xs: &Vec<String>)
    ensures
        final(v)@.map_values(|s: String| s@) == set_extend(
            old(v)@.map_values(|s: String| s@),
            xs@.map_values(|s: String| s@),
        ),
{
    let ghost start = v@.map_values(|s: String| s@);
    let ghost xv = xs@.map_values(|s: String| s@);
    let mut i: usize = 0;
    while i < xs.len()
        invariant
            i <= xs@.len(),
            xv == xs@.map_values(|s: String| s@),
            v@.map_values(|s: String| s@) == set_extend(start, xv.take(i as int)),
        decreases xs@.len() - i,
    {
        proof {
            assert(xv.take(i + 1).drop_last() =~= xv.take(i as int));
        }
        set_add(v, xs[i].clone());
        i = i + 1;
    }
    proof {
        assert(xv.take(xs@.len() as int) =~= xv);
    }
}

/// `set_insert` keeps every element and adds `x`.
pub proof fn lemma_set_insert_contains(s: Seq<Seq<char>>, x: Seq<char>)
    ensures
        set_insert(s, x).contains(x),
        forall|y: Seq<char>| s.contains(y) ==> set_insert(s, x).contains(y),
{
    if !s.contains(x) {
        lemma_set_pos(s, x);
        let p = set_pos(s, x);
        let r = s.insert(p, x);
        assert(r[p] == x);
        assert forall|y: Seq<char>| s.contains(y) implies r.contains(y) by {
            let a = choose|a: int| 0 <= a < s.len() && s[a] == y;
            if a < p {
                assert(r[a] == y);
            } else {
                assert(r[a + 1] == y);
            }
        }
    }
}

/// `set_extend` keeps every element of `acc` and adds every element of `s`.
pub proof fn lemma_set_extend_contains(acc: Seq<Seq<char>>, s: Seq<Seq<char>>)
    ensures
        forall|y: Seq<char>| acc.contains(y) ==> set_extend(acc, s).contains(y),
        forall|y: Seq<char>| s.contains(y) ==> set_extend(acc, s).contains(y),
    decreases s.len(),
{
    if s.len() > 0 {
        let sd = s.drop_last();
        lemma_set_extend_contains(acc, sd);
        lemma_set_insert_contains(set_extend(acc, sd), s.last());
        assert forall|y: Seq<char>| s.contains(y) implies set_extend(acc, s).contains(y) by {
            let a = choose|a: int| 0 <= a < s.len() && s[a] == y;
            if a < s.len() - 1 {
                assert(sd[a] == y);
                assert(sd.contains(y));
                assert(set_extend(acc, sd).contains(y));
            } else {
                assert(y == s.last());
            }
            assert(set_extend(acc, s) == set_insert(set_extend(acc, sd), s.last()));
        }
    }
}

} // verus!
