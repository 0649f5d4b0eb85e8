//! A JSON document tree, as the catalog logic reads it. Objects keep their
//! fields in ascending key order with no key repeated (the order in which a
//! JSON reader with sorted maps yields them); every operation here is stated
//! over the mathematical model `JsonV`.

use vstd::prelude::*;
use crate::text::{copy_string, lemma_seq_lt_irrefl, lemma_seq_lt_total, lemma_seq_lt_trans, owned, seq_lt, str_eq, str_lt};

verus! {

/// Mathematical model of a JSON value.
pub enum JsonV {
    Null,
    Bool(bool),
    /// A number, kept as its JSON text.
    Num(Seq<char>),
    Str(Seq<char>),
    Arr(Seq<JsonV>),
    Obj(Seq<(Seq<char>, JsonV)>),
}

/// A JSON value.
pub enum Json {
    Null,
    Bool(bool),
    /// A number, kept as its JSON text (the catalog logic never reads numbers).
    Number(String),
    Str(String),
    Array(Vec<Json>),
    Object(Vec<(String, Json)>),
}

pub open spec fn view_arr(s: Seq<Json>) -> Seq<JsonV>
    decreases s,
{
    if s.len() == 0 {
        Seq::empty()
    } else {
        seq![json_view(s[0])] + view_arr(s.subrange(1, s.len() as int))
    }
}

pub open spec fn view_fields(s: Seq<(String, Json)>) -> Seq<(Seq<char>, JsonV)>
    decreases s,
{
    if s.len() == 0 {
        Seq::empty()
    } else {
        seq![(s[0].0@, json_view(s[0].1))] + view_fields(s.subrange(1, s.len() as int))
    }
}

pub open spec fn json_view(j: Json) -> JsonV
    decreases j,
{
    match j {
        Json::Null => JsonV::Null,
        Json::Bool(b) => JsonV::Bool(b),
        Json::Number(n) => JsonV::Num(n@),
        Json::Str(s) => JsonV::Str(s@),
        Json::Array(v) => JsonV::Arr(view_arr(v@)),
        Json::Object(v) => JsonV::Obj(view_fields(v@)),
    }
}

impl View for Json {
    type V = JsonV;

    open spec fn view(&self) -> JsonV {
        json_view(*self)
    }
}

pub proof fn lemma_view_arr(s: Seq<Json>)
    ensures
        view_arr(s).len() == s.len(),
        forall|i: int| 0 <= i < s.len() ==> #[trigger] view_arr(s)[i] == json_view(s[i]),
    decreases s.len(),
{
    if s.len() > 0 {
        lemma_view_arr(s.subrange(1, s.len() as int));
    }
}

pub proof fn lemma_view_fields(s: Seq<(String, Json)>)
    ensures
        view_fields(s).len() == s.len(),
        forall|i: int|
            0 <= i < s.len() ==> #[trigger] view_fields(s)[i] == (s[i].0@, json_view(s[i].1)),
    decreases s.len(),
{
    if s.len() > 0 {
        lemma_view_fields(s.subrange(1, s.len() as int));
    }
}

/// Two field lists with equal entries pointwise (by view) have equal views.
pub proof fn lemma_view_fields_ext(a: Seq<(String, Json)>, b: Seq<(String, Json)>)
    requires
        a.len() == b.len(),
        forall|i: int| 0 <= i < a.len() ==> a[i].0@ == b[i].0@ && json_view(a[i].1) == json_view(b[i].1),
    ensures
        view_fields(a) == view_fields(b),
{
    lemma_view_fields(a);
    lemma_view_fields(b);
    assert(view_fields(a) =~= view_fields(b));
}

pub proof fn lemma_view_arr_ext(a: Seq<Json>, b: Seq<Json>)
    requires
        a.len() == b.len(),
        forall|i: int| 0 <= i < a.len() ==> json_view(a[i]) == json_view(b[i]),
    ensures
        view_arr(a) == view_arr(b),
{
    lemma_view_arr(a);
    lemma_view_arr(b);
    assert(view_arr(a) =~= view_arr(b));
}

/// The keys of a field list are in strictly ascending order.
pub open spec fn keys_sorted<V>(fs: Seq<(Seq<char>, V)>) -> bool {
    forall|i: int, j: int| 0 <= i < j < fs.len() ==> seq_lt(#[trigger] fs[i].0, #[trigger] fs[j].0)
}

pub open spec fn wf_fields(fs: Seq<(Seq<char>, JsonV)>) -> bool
    decreases fs,
{
    if fs.len() == 0 {
        true
    } else {
        wf_json(fs[0].1) && wf_fields(fs.subrange(1, fs.len() as int))
    }
}

pub open spec fn wf_arr(s: Seq<JsonV>) -> bool
    decreases s,
{
    if s.len() == 0 {
        true
    } else {
        wf_json(s[0]) && wf_arr(s.subrange(1, s.len() as int))
    }
}

/// Well-formed JSON: every object, at any depth, has its keys strictly ascending.
pub open spec fn wf_json(v: JsonV) -> bool
    decreases v,
{
    match v {
        JsonV::Arr(s) => wf_arr(s),
        JsonV::Obj(fs) => keys_sorted(fs) && wf_fields(fs),
        _ => true,
    }
}

pub proof fn lemma_wf_fields(fs: Seq<(Seq<char>, JsonV)>)
    ensures
        wf_fields(fs) <==> forall|i: int| 0 <= i < fs.len() ==> #[trigger] wf_json(fs[i].1),
    decreases fs.len(),
{
    if fs.len() > 0 {
        let rest = fs.subrange(1, fs.len() as int);
        lemma_wf_fields(rest);
        assert forall|i: int| 0 <= i < rest.len() implies rest[i] == fs[i + 1] by {}
        if forall|i: int| 0 <= i < fs.len() ==> #[trigger] wf_json(fs[i].1) {
            assert(wf_json(fs[0].1));
            assert forall|i: int| 0 <= i < rest.len() implies #[trigger] wf_json(rest[i].1) by {
                assert(wf_json(fs[i + 1].1));
            }
            assert(wf_fields(fs));
        }
        if wf_fields(fs) {
            assert forall|i: int| 0 <= i < fs.len() implies #[trigger] wf_json(fs[i].1) by {
                if i > 0 {
                    assert(fs[i] == rest[i - 1]);
                }
            }
        }
    }
}

pub proof fn lemma_wf_arr(s: Seq<JsonV>)
    ensures
        wf_arr(s) <==> forall|i: int| 0 <= i < s.len() ==> #[trigger] wf_json(s[i]),
    decreases s.len(),
{
    if s.len() > 0 {
        let rest = s.subrange(1, s.len() as int);
        lemma_wf_arr(rest);
        assert forall|i: int| 0 <= i < rest.len() implies rest[i] == s[i + 1] by {}
        if forall|i: int| 0 <= i < s.len() ==> #[trigger] wf_json(s[i]) {
            assert(wf_json(s[0]));
            assert forall|i: int| 0 <= i < rest.len() implies #[trigger] wf_json(rest[i]) by {
                assert(wf_json(s[i + 1]));
            }
            assert(wf_arr(s));
        }
        if wf_arr(s) {
            assert forall|i: int| 0 <= i < s.len() implies #[trigger] wf_json(s[i]) by {
                if i > 0 {
                    assert(s[i] == rest[i - 1]);
                }
            }
        }
    }
}

/// The value stored under `k` in a field list (the first entry with that key).
pub open spec fn fields_get<V>(fs: Seq<(Seq<char>, V)>, k: Seq<char>) -> Option<V>
    decreases fs.len(),
{
    if fs.len() == 0 {
        None
    } else if fs[0].0 == k {
        Some(fs[0].1)
    } else {
        fields_get(fs.drop_first(), k)
    }
}

/// The position of the first entry with key `k`.
pub open spec fn fields_index<V>(fs: Seq<(Seq<char>, V)>, k: Seq<char>) -> Option<int>
    decreases fs.len(),
{
    if fs.len() == 0 {
        None
    } else if fs[0].0 == k {
        Some(0)
    } else {
        match fields_index(fs.drop_first(), k) {
            Some(i) => Some(i + 1),
            None => None,
        }
    }
}

pub proof fn lemma_fields_index<V>(fs: Seq<(Seq<char>, V)>, k: Seq<char>)
    ensures
        fields_index(fs, k) matches Some(i) ==> 0 <= i < fs.len() && fs[i].0 == k && fields_get(fs, k)
            == Some(fs[i].1) && forall|j: int| 0 <= j < i ==> fs[j].0 != k,
        fields_index(fs, k) is None ==> fields_get(fs, k) is None && forall|j: int|
            0 <= j < fs.len() ==> fs[j].0 != k,
    decreases fs.len(),
{
    if fs.len() > 0 && fs[0].0 != k {
        lemma_fields_index(fs.drop_first(), k);
        let rest = fs.drop_first();
        if let Some(i) = fields_index(rest, k) {
            assert forall|j: int| 0 <= j < i + 1 implies fs[j].0 != k by {
                if j > 0 {
                    assert(fs[j] == rest[j - 1]);
                }
            }
        } else {
            assert forall|j: int| 0 <= j < fs.len() implies fs[j].0 != k by {
                if j > 0 {
                    assert(fs[j] == rest[j - 1]);
                }
            }
        }
    }
}

/// In a list with ascending keys, an entry's key finds that entry.
pub proof fn lemma_sorted_get<V>(fs: Seq<(Seq<char>, V)>, i: int)
    requires
        keys_sorted(fs),
        0 <= i < fs.len(),
    ensures
        fields_index(fs, fs[i].0) == Some(i),
        fields_get(fs, fs[i].0) == Some(fs[i].1),
{
    lemma_fields_index(fs, fs[i].0);
    match fields_index(fs, fs[i].0) {
        Some(j) => {
            if j < i {
                lemma_seq_lt_irrefl(fs[i].0);
            }
        },
        None => {},
    }
}

/// Where `k` belongs in an ascending key list: the first entry whose key is not less than `k`.
pub open spec fn insert_pos<V>(fs: Seq<(Seq<char>, V)>, k: Seq<char>) -> int
    decreases fs.len(),
{
    if fs.len() == 0 {
        0
    } else if !seq_lt(fs[0].0, k) {
        0
    } else {
        insert_pos(fs.drop_first(), k) + 1
    }
}

pub proof fn lemma_insert_pos<V>(fs: Seq<(Seq<char>, V)>, k: Seq<char>)
    ensures
        0 <= insert_pos(fs, k) <= fs.len(),
        forall|j: int| 0 <= j < insert_pos(fs, k) ==> seq_lt(#[trigger] fs[j].0, k),
        insert_pos(fs, k) < fs.len() ==> !seq_lt(fs[insert_pos(fs, k)].0, k),
    decreases fs.len(),
{
    if fs.len() > 0 && seq_lt(fs[0].0, k) {
        let rest = fs.drop_first();
        lemma_insert_pos(rest, k);
        assert forall|j: int| 0 <= j < insert_pos(fs, k) implies seq_lt(#[trigger] fs[j].0, k) by {
            if j > 0 {
                assert(fs[j] == rest[j - 1]);
            }
        }
    }
}

/// `fs` with `k` set to `v`: an existing entry for `k` keeps its place and takes
/// the new value; otherwise the entry goes where `k` belongs in ascending order
/// (`BTreeMap::insert`).
pub open spec fn fields_insert<V>(fs: Seq<(Seq<char>, V)>, k: Seq<char>, v: V) -> Seq<(Seq<char>, V)> {
    match fields_index(fs, k) {
        Some(i) => fs.update(i, (k, v)),
        None => fs.insert(insert_pos(fs, k), (k, v)),
    }
}

/// Inserting into an ascending key list keeps it ascending, and a read after the
/// write gives back what was written, leaving every other key as it was.
pub proof fn lemma_fields_insert<V>(fs: Seq<(Seq<char>, V)>, k: Seq<char>, v: V)
    requires
        keys_sorted(fs),
    ensures
        keys_sorted(fields_insert(fs, k, v)),
        fields_get(fields_insert(fs, k, v), k) == Some(v),
        forall|k2: Seq<char>| k2 != k ==> fields_get(fields_insert(fs, k, v), k2) == fields_get(fs, k2),
        fields_index(fs, k) is None ==> fields_insert(fs, k, v).len() == fs.len() + 1,
        fields_index(fs, k) is Some ==> fields_insert(fs, k, v).len() == fs.len(),
{
    lemma_fields_index(fs, k);
    let r = fields_insert(fs, k, v);
    match fields_index(fs, k) {
        Some(i) => {
            assert(keys_sorted(r)) by {
                assert forall|a: int, b: int| 0 <= a < b < r.len() implies seq_lt(#[trigger] r[a].0, #[trigger] r[b].0) by {
                    assert(r[a].0 == fs[a].0);
                    assert(r[b].0 == fs[b].0);
                }
            }
            lemma_sorted_get(r, i);
            assert forall|k2: Seq<char>| k2 != k implies fields_get(r, k2) == fields_get(fs, k2) by {
                lemma_fields_index(fs, k2);
                lemma_fields_index(r, k2);
                match fields_index(fs, k2) {
                    Some(j) => {
                        lemma_sorted_get(r, j);
                    },
                    None => {
                        if let Some(j) = fields_index(r, k2) {
                            assert(r[j].0 == fs[j].0);
                        }
                    },
                }
            }
        },
        None => {
            let p = insert_pos(fs, k);
            lemma_insert_pos(fs, k);
            if p < fs.len() {
                lemma_seq_lt_total(fs[p].0, k);
            }
            assert(keys_sorted(r)) by {
                assert forall|a: int, b: int| 0 <= a < b < r.len() implies seq_lt(#[trigger] r[a].0, #[trigger] r[b].0) by {
                    if b < p {
                        assert(r[a] == fs[a] && r[b] == fs[b]);
                    } else if b == p {
                        assert(r[a] == fs[a]);
                    } else if a == p {
                        assert(r[b] == fs[b - 1]);
                        if b - 1 > p {
                            lemma_seq_lt_trans(k, fs[p].0, fs[b - 1].0);
                        }
                    } else if a < p {
                        assert(r[a] == fs[a]);
                        assert(r[b] == fs[b - 1]);
                        if a < b - 1 {
                        } else {
                        }
                    } else {
                        assert(r[a] == fs[a - 1]);
                        assert(r[b] == fs[b - 1]);
                    }
                }
            }
            lemma_sorted_get(r, p);
            assert forall|k2: Seq<char>| k2 != k implies fields_get(r, k2) == fields_get(fs, k2) by {
                lemma_fields_index(fs, k2);
                lemma_fields_index(r, k2);
                match fields_index(fs, k2) {
                    Some(j) => {
                        if j < p {
                            assert(r[j] == fs[j]);
                            lemma_sorted_get(r, j);
                        } else {
                            assert(r[j + 1] == fs[j]);
                            lemma_sorted_get(r, j + 1);
                        }
                    },
                    None => {
                        if let Some(j) = fields_index(r, k2) {
                            if j < p {
                                assert(r[j] == fs[j]);
                            } else if j > p {
                                assert(r[j] == fs[j - 1]);
                            }
                        }
                    },
                }
            }
        },
    }
}

impl Json {
    /// A JSON string.
    pub fn string(s: &str) -> (r: Json)
        ensures
            r@ == JsonV::Str(s@),
    {
        Json::Str(owned(s))
    }

    /// An empty JSON object.
    pub fn object() -> (r: Json)
        ensures
            r@ == JsonV::Obj(Seq::empty()),
    {
        let v: Vec<(String, Json)> = Vec::new();
        proof {
            assert(view_fields(v@) =~= Seq::<(Seq<char>, JsonV)>::empty());
        }
        Json::Object(v)
    }

    /// The string, if this is one.
    pub fn as_str(&self) -> (r: Option<&String>)
        ensures
            self@ is Str <==> r is Some,
            r matches Some(s) ==> self@ == JsonV::Str(s@),
    {
        match self {
            Json::Str(s) => Some(s),
            _ => None,
        }
    }

    /// The fields, if this is an object.
    pub fn as_object(&self) -> (r: Option<&Vec<(String, Json)>>)
        ensures
            self@ is Obj <==> r is Some,
            r matches Some(fs) ==> self@ == JsonV::Obj(view_fields(fs@)),
    {
        match self {
            Json::Object(fs) => Some(fs),
            _ => None,
        }
    }

    /// The member `key` of an object (`None` for a missing key or a non-object).
    pub fn get(&self, key: &str) -> (r: Option<&Json>)
        ensures
            r matches Some(x) ==> self@ is Obj && fields_get(self@->Obj_0, key@) == Some(x@),
            r is None ==> !(self@ is Obj) || fields_get(self@->Obj_0, key@) is None,
    {
        match self {
            Json::Object(fs) => {
                match field_index(fs, key) {
                    Some(i) => {
                        proof {
                            lemma_view_fields(fs@);
                            lemma_fields_index(view_fields(fs@), key@);
                        }
                        Some(&fs[i].1)
                    },
                    None => {
                        proof {
                            lemma_fields_index(view_fields(fs@), key@);
                        }
                        None
                    },
                }
            },
            _ => None,
        }
    }

    /// A deep copy.
    pub fn copy(&self) -> (r: Json)
        ensures
            r@ == self@,
        decreases self,
    {
        match self {
            Json::Null => Json::Null,
            Json::Bool(b) => Json::Bool(*b),
            Json::Number(n) => Json::Number(copy_string(n)),
            Json::Str(s) => Json::Str(copy_string(s)),
            Json::Array(v) => Json::Array(copy_array(v)),
            Json::Object(fs) => {
                let out = copy_fields(fs);
                Json::Object(out)
            },
        }
    }
}

/// A deep copy of an array.
pub fn copy_array(v: &Vec<Json>) -> (r: Vec<Json>)
    ensures
        view_arr(r@) == view_arr(v@),
    decreases v,
{
    let mut out: Vec<Json> = Vec::new();
    let mut i: usize = 0;
    while i < v.len()
        invariant
            i <= v@.len(),
            out@.len() == i,
            forall|j: int| 0 <= j < i ==> json_view(#[trigger] out@[j]) == json_view(v@[j]),
        decreases v@.len() - i,
    {
        proof {
            assert(decreases_to!(v => v[i as int]));
        }
        let c = v[i].copy();
        out.push(c);
        i = i + 1;
    }
    proof {
        lemma_view_arr_ext(out@, v@);
    }
    out
}

/// A deep copy of a field list.
pub fn copy_fields(fs: &Vec<(String, Json)>) -> (r: Vec<(String, Json)>)
    ensures
        view_fields(r@) == view_fields(fs@),
    decreases fs,
{
    let mut out: Vec<(String, Json)> = Vec::new();
    let mut i: usize = 0;
    while i < fs.len()
        invariant
            i <= fs@.len(),
            out@.len() == i,
            forall|j: int|
                0 <= j < i ==> (#[trigger] out@[j]).0@ == fs@[j].0@ && json_view(out@[j].1) == json_view(
                    fs@[j].1,
                ),
        decreases fs@.len() - i,
    {
        proof {
            assert(decreases_to!(fs => fs[i as int]));
        }
        let k = copy_string(&fs[i].0);
        let c = fs[i].1.copy();
        out.push((k, c));
        i = i + 1;
    }
    proof {
        lemma_view_fields_ext(out@, fs@);
    }
    out
}

/// The position of the entry for `key` in a field list.
pub fn field_index(fs: &Vec<(String, Json)>, key: &str) -> (r: Option<usize>)
    ensures
        r matches Some(i) ==> fields_index(view_fields(fs@), key@) == Some(i as int),
        r is None ==> fields_index(view_fields(fs@), key@) is None,
{
    let ghost vf = view_fields(fs@);
    proof {
        lemma_view_fields(fs@);
        lemma_fields_index(vf, key@);
    }
    let mut i: usize = 0;
    while i < fs.len()
        invariant
            i <= fs@.len(),
            vf == view_fields(fs@),
            vf.len() == fs@.len(),
            forall|j: int| 0 <= j < fs@.len() ==> #[trigger] vf[j] == (fs@[j].0@, json_view(fs@[j].1)),
            forall|j: int| 0 <= j < i ==> vf[j].0 != key@,
            fields_index(vf, key@) matches Some(x) ==> 0 <= x < vf.len() && vf[x].0 == key@ && forall|
                j: int,
            | 0 <= j < x ==> vf[j].0 != key@,
            fields_index(vf, key@) is None ==> forall|j: int| 0 <= j < vf.len() ==> vf[j].0 != key@,
        decreases fs@.len() - i,
    {
        if str_eq(fs[i].0.as_str(), key) {
            proof {
                assert(vf[i as int].0 == key@);
            }
            return Some(i);
        }
        i = i + 1;
    }
    None
}

/// Sets `key` to `value` in an ascending field list (see `fields_insert`).
pub fn insert_field(fs: &mut Vec<(String, Json)>, key: String, value: Json)
    ensures
        view_fields(final(fs)@) == fields_insert(view_fields(old(fs)@), key@, value@),
{
    let ghost vf = view_fields(fs@);
    let ghost kv = key@;
    let ghost vv = value@;
    proof {
        lemma_view_fields(fs@);
    }
    match field_index(fs, key.as_str()) {
        Some(i) => {
            proof {
                lemma_fields_index(vf, kv);
            }
            fs.set(i, (key, value));
            proof {
                lemma_view_fields(fs@);
                assert(view_fields(fs@) =~= vf.update(i as int, (kv, vv)));
            }
        },
        None => {
            proof {
                lemma_insert_pos(vf, kv);
            }
            let mut p: usize = 0;
            while p < fs.len() && str_lt(fs[p].0.as_str(), key.as_str())
                invariant
                    p <= fs@.len(),
                    vf == view_fields(fs@),
                    vf.len() == fs@.len(),
                    kv == key@,
                    forall|j: int| 0 <= j < fs@.len() ==> #[trigger] vf[j] == (fs@[j].0@, json_view(fs@[j].1)),
                    insert_pos(vf, kv) >= p,
                    forall|j: int| 0 <= j < p ==> seq_lt(#[trigger] vf[j].0, kv),
                decreases fs@.len() - p,
            {
                proof {
                    lemma_insert_pos_step(vf, kv, p as int);
                }
                p = p + 1;
            }
            proof {
                lemma_insert_pos_stop(vf, kv, p as int);
            }
            let ghost before = fs@;
            fs.insert(p, (key, value));
            proof {
                lemma_view_fields(fs@);
                assert(view_fields(fs@) =~= vf.insert(p as int, (kv, vv)));
            }
        },
    }
}

proof fn lemma_insert_pos_step<V>(fs: Seq<(Seq<char>, V)>, k: Seq<char>, p: int)
    requires
        0 <= p < fs.len(),
        forall|j: int| 0 <= j <= p ==> seq_lt(#[trigger] fs[j].0, k),
    ensures
        insert_pos(fs, k) >= p + 1,
    decreases p,
{
    let rest = fs.drop_first();
    assert(seq_lt(fs[0].0, k));
    lemma_insert_pos(rest, k);
    if p > 0 {
        assert forall|j: int| 0 <= j <= p - 1 implies seq_lt(#[trigger] rest[j].0, k) by {
            assert(rest[j] == fs[j + 1]);
        }
        lemma_insert_pos_step(rest, k, p - 1);
    }
}

proof fn lemma_insert_pos_stop<V>(fs: Seq<(Seq<char>, V)>, k: Seq<char>, p: int)
    requires
        0 <= p <= fs.len(),
        forall|j: int| 0 <= j < p ==> seq_lt(#[trigger] fs[j].0, k),
        p == fs.len() || !seq_lt(fs[p].0, k),
    ensures
        insert_pos(fs, k) == p,
    decreases p,
{
    if p > 0 {
        let rest = fs.drop_first();
        assert forall|j: int| 0 <= j < p - 1 implies seq_lt(#[trigger] rest[j].0, k) by {
            assert(rest[j] == fs[j + 1]);
        }
        if p < fs.len() {
            assert(rest[p - 1] == fs[p]);
        }
        lemma_insert_pos_stop(rest, k, p - 1);
    }
}

/// A catalog's locale list is well formed: its locales strictly ascending and
/// every locale's tree well formed (what a sorted map of JSON trees holds).
pub open spec fn catalog_wf(lv: Seq<(Seq<char>, JsonV)>) -> bool {
    keys_sorted(lv) && forall|i: int| 0 <= i < lv.len() ==> #[trigger] wf_json(lv[i].1)
}

/// Whether the keys of `fs` are strictly ascending.
pub fn keys_sorted_exec(fs: &Vec<(String, Json)>) -> (r: bool)
    ensures
        r == keys_sorted(view_fields(fs@)),
{
    let ghost v = view_fields(fs@);
    proof {
        lemma_view_fields(fs@);
    }
    if fs.len() == 0 {
        return true;
    }
    let mut i: usize = 1;
    while i < fs.len()
        invariant
            1 <= i <= fs@.len(),
            v == view_fields(fs@),
            v.len() == fs@.len(),
            forall|j: int| 0 <= j < fs@.len() ==> #[trigger] v[j] == (fs@[j].0@, json_view(fs@[j].1)),
            forall|a: int, b: int| 0 <= a < b < i ==> seq_lt(#[trigger] v[a].0, #[trigger] v[b].0),
        decreases fs@.len() - i,
    {
        let ok = str_lt(fs[i - 1].0.as_str(), fs[i].0.as_str());
        proof {
            assert(v[i - 1].0 == fs@[i - 1].0@);
            assert(v[i as int].0 == fs@[i as int].0@);
        }
        if !ok {
            return false;
        }
        proof {
            assert forall|a: int, b: int| 0 <= a < b < i + 1 implies seq_lt(#[trigger] v[a].0, #[trigger] v[b].0) by {
                if b == i && a < i - 1 {
                    assert(seq_lt(v[a].0, v[i - 1].0));
                    lemma_seq_lt_trans(v[a].0, v[i - 1].0, v[b].0);
                }
            }
        }
        i = i + 1;
    }
    true
}

/// Whether `j` is well formed: every object, at any depth, with its keys
/// strictly ascending.
pub fn json_wf_exec(j: &Json) -> (r: bool)
    ensures
        r == wf_json(j@),
    decreases j,
{
    match j {
        Json::Array(items) => {
            proof {
                lemma_view_arr(items@);
                lemma_wf_arr(view_arr(items@));
            }
            let mut i: usize = 0;
            while i < items.len()
                invariant
                    *j == Json::Array(*items),
                    wf_json(j@) <==> forall|k: int| 0 <= k < items@.len() ==> #[trigger] wf_json(view_arr(items@)[k]),
                    i <= items@.len(),
                    view_arr(items@).len() == items@.len(),
                    forall|k: int| 0 <= k < items@.len() ==> #[trigger] view_arr(items@)[k] == json_view(items@[k]),
                    forall|k: int| 0 <= k < i ==> #[trigger] wf_json(view_arr(items@)[k]),
                decreases items@.len() - i,
            {
                proof {
                    assert(decreases_to!(*j => *items));
                    assert(decreases_to!(*items => items@));
                    assert(decreases_to!(items@ => items@[i as int]));
                }
                if !json_wf_exec(&items[i]) {
                    proof {
                        assert(!wf_json(view_arr(items@)[i as int]));
                    }
                    return false;
                }
                i = i + 1;
            }
            true
        },
        Json::Object(fs) => {
            proof {
                lemma_view_fields(fs@);
                lemma_wf_fields(view_fields(fs@));
            }
            if !keys_sorted_exec(fs) {
                return false;
            }
            let mut i: usize = 0;
            while i < fs.len()
                invariant
                    *j == Json::Object(*fs),
                    wf_json(j@) <==> (keys_sorted(view_fields(fs@)) && forall|k: int|
                        0 <= k < fs@.len() ==> #[trigger] wf_json(view_fields(fs@)[k].1)),
                    i <= fs@.len(),
                    keys_sorted(view_fields(fs@)),
                    view_fields(fs@).len() == fs@.len(),
                    forall|k: int| 0 <= k < fs@.len() ==> #[trigger] view_fields(fs@)[k] == (fs@[k].0@, json_view(fs@[k].1)),
                    forall|k: int| 0 <= k < i ==> #[trigger] wf_json(view_fields(fs@)[k].1),
                decreases fs@.len() - i,
            {
                proof {
                    assert(decreases_to!(*j => *fs));
                    assert(decreases_to!(*fs => fs@));
                    assert(decreases_to!(fs@ => fs@[i as int]));
                    assert(decreases_to!(fs@[i as int] => fs@[i as int].1));
                }
                if !json_wf_exec(&fs[i].1) {
                    proof {
                        assert(!wf_json(view_fields(fs@)[i as int].1));
                    }
                    return false;
                }
                i = i + 1;
            }
            true
        },
        _ => true,
    }
}

/// Whether a catalog's locale list is well formed (see `catalog_wf`).
pub fn catalog_wf_exec(locales: &Vec<(String, Json)>) -> (r: bool)
    ensures
        r == catalog_wf(view_fields(locales@)),
{
    proof {
        lemma_view_fields(locales@);
    }
    if !keys_sorted_exec(locales) {
        return false;
    }
    let mut i: usize = 0;
    while i < locales.len()
        invariant
            i <= locales@.len(),
            keys_sorted(view_fields(locales@)),
            view_fields(locales@).len() == locales@.len(),
            forall|k: int| 0 <= k < locales@.len() ==> #[trigger] view_fields(locales@)[k] == (locales@[k].0@, json_view(locales@[k].1)),
            forall|k: int| 0 <= k < i ==> #[trigger] wf_json(view_fields(locales@)[k].1),
        decreases locales@.len() - i,
    {
        if !json_wf_exec(&locales[i].1) {
            proof {
                assert(!wf_json(view_fields(locales@)[i as int].1));
            }
            return false;
        }
        i = i + 1;
    }
    true
}

} // verus!
