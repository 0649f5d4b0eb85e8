//! Assembling locale catalogs from their files.
//!
//! A locale is one file `dir/<locale>.json`, or a folder `dir/<locale>/**/*.json`
//! in which every folder name and file stem is a namespace segment; both layouts
//! may be mixed and everything contributing to one locale is deep-merged. A key
//! defined twice, or as both a namespace and a value, is an error, never a
//! silent clobber.

use vstd::prelude::*;
use crate::error::Error;
use crate::json::{field_index, fields_get, fields_index, fields_insert, insert_field, insert_pos, json_view, keys_sorted, lemma_fields_index, lemma_fields_insert, lemma_insert_pos, lemma_view_fields, view_fields, Json, JsonV};
use crate::text::{chars_of, concat, concat3, copy_string, lemma_seq_lt_irrefl, seq_lt, string_of, subchars, views};
use crate::assoc::{assoc_insert, kv_view, lemma_map_vals_insert, map_vals};

verus! {

/// `from` merged into `into`: objects combine key by key, recursively; any
/// other pairing (a key defined twice, or as both namespace and value) fails.
pub open spec fn merge_spec(into: JsonV, from: JsonV) -> Option<JsonV>
    decreases from,
{
    match (into, from) {
        (JsonV::Obj(fa), JsonV::Obj(fb)) => match merge_fields(fa, fb) {
            Some(f) => Some(JsonV::Obj(f)),
            None => None,
        },
        _ => None,
    }
}

/// The entries of `fb` merged, in order, into the field list `fa`.
pub open spec fn merge_fields(fa: Seq<(Seq<char>, JsonV)>, fb: Seq<(Seq<char>, JsonV)>) -> Option<Seq<(Seq<char>, JsonV)>>
    decreases fb,
{
    if fb.len() == 0 {
        Some(fa)
    } else {
        let last = fb[fb.len() - 1];
        match merge_fields(fa, fb.subrange(0, fb.len() - 1)) {
            None => None,
            Some(acc) => match fields_get(acc, last.0) {
                Some(x) => match merge_spec(x, last.1) {
                    Some(y) => Some(fields_insert(acc, last.0, y)),
                    None => None,
                },
                None => Some(fields_insert(acc, last.0, last.1)),
            },
        }
    }
}

/// `from` merged into `into` (see `merge_spec`).
pub fn merged(into: Json, from: &Json) -> (r: Result<Json, Error>)
    ensures
        match merge_spec(into@, from@) {
            Some(v) => r matches Ok(x) && x@ == v,
            None => r matches Err(Error::ConflictingKeys),
        },
    decreases from,
{
    match (into, from) {
        (Json::Object(fa), Json::Object(fb)) => {
            match merge_fields_exec(fa, fb) {
                Ok(f) => Ok(Json::Object(f)),
                Err(e) => Err(e),
            }
        },
        _ => Err(Error::ConflictingKeys),
    }
}

/// The entries of `fb` merged into `fa` (see `merge_fields`).
fn merge_fields_exec(fa: Vec<(String, Json)>, fb: &Vec<(String, Json)>) -> (r: Result<Vec<(String, Json)>, Error>)
    ensures
        match merge_fields(view_fields(fa@), view_fields(fb@)) {
            Some(f) => r matches Ok(x) && view_fields(x@) == f,
            None => r matches Err(Error::ConflictingKeys),
        },
    decreases fb,
{
    let ghost va = view_fields(fa@);
    let ghost vb = view_fields(fb@);
    proof {
        lemma_view_fields(fb@);
        assert(vb.subrange(0, 0) =~= Seq::<(Seq<char>, JsonV)>::empty());
    }
    let mut acc = fa;
    let mut i: usize = 0;
    while i < fb.len()
        invariant
            i <= fb@.len(),
            va == view_fields(fa@),
            vb == view_fields(fb@),
            vb.len() == fb@.len(),
            forall|j: int| 0 <= j < fb@.len() ==> #[trigger] vb[j] == (fb@[j].0@, json_view(fb@[j].1)),
            merge_fields(va, vb.subrange(0, i as int)) == Some(view_fields(acc@)),
        decreases fb@.len() - i,
    {
        proof {
            assert(vb.subrange(0, i + 1).subrange(0, i as int) =~= vb.subrange(0, i as int));
            assert(vb.subrange(0, i + 1)[i as int] == vb[i as int]);
            assert(decreases_to!(fb => fb[i as int]));
        }
        let ghost av = view_fields(acc@);
        proof {
            lemma_view_fields(acc@);
            lemma_fields_index(av, fb@[i as int].0@);
        }
        match field_index(&acc, fb[i].0.as_str()) {
            Some(k) => {
                let (key, x) = acc.remove(k);
                match merged(x, &fb[i].1) {
                    Ok(y) => {
                        let ghost yv = y@;
                        acc.insert(k, (key, y));
                        proof {
                            lemma_view_fields(acc@);
                            assert(view_fields(acc@) =~= av.update(k as int, (fb@[i as int].0@, yv)));
                        }
                    },
                    Err(e) => {
                        proof {
                            let t = vb.subrange(0, i + 1);
                            assert(t.subrange(0, t.len() - 1) =~= vb.subrange(0, i as int));
                            assert(t[t.len() - 1] == vb[i as int]);
                            assert(fields_get(av, vb[i as int].0) == Some(av[k as int].1));
                            assert(merge_spec(av[k as int].1, vb[i as int].1) is None);
                            assert(merge_fields(va, t) is None);
                            lemma_merge_fields_err(va, vb, i as int);
                        }
                        return Err(e);
                    },
                }
            },
            None => {
                let v = fb[i].1.copy();
                insert_field(&mut acc, copy_string(&fb[i].0), v);
            },
        }
        i = i + 1;
    }
    proof {
        assert(vb.subrange(0, i as int) =~= vb);
    }
    Ok(acc)
}

/// A failure at entry `i` is the failure of the whole merge.
proof fn lemma_merge_fields_err(fa: Seq<(Seq<char>, JsonV)>, fb: Seq<(Seq<char>, JsonV)>, i: int)
    requires
        0 <= i < fb.len(),
        merge_fields(fa, fb.subrange(0, i + 1)) is None,
    ensures
        merge_fields(fa, fb) is None,
    decreases fb.len() - i,
{
    if i + 1 < fb.len() {
        let t = fb.subrange(0, i + 2);
        assert(t.subrange(0, t.len() - 1) =~= fb.subrange(0, i + 1));
        lemma_merge_fields_err(fa, fb, i + 1);
    } else {
        assert(fb.subrange(0, i + 1) =~= fb);
    }
}

/// Recursively merges `from` into `into` (see `merge_spec`); on failure `into`
/// holds no meaningful value.
pub fn deep_merge(into: &mut Json, from: Json) -> (r: Result<(), Error>)
    ensures
        match merge_spec(old(into)@, from@) {
            Some(v) => r is Ok && final(into)@ == v,
            None => r matches Err(Error::ConflictingKeys),
        },
{
    let mut cur = Json::Null;
    std::mem::swap(&mut cur, into);
    match merged(cur, &from) {
        Ok(v) => {
            *into = v;
            Ok(())
        },
        Err(e) => Err(e),
    }
}

/// How an insertion into a catalog tree fails.
pub enum InsertFail {
    /// A key is defined twice (`Error::ConflictingKeys`).
    Conflict,
    /// The segment names a value where a namespace is needed (`Error::ValueAndNamespace`).
    Shape(Seq<char>),
}

/// `r` is the outcome that `s` describes (the tree by view, the error by kind).
pub open spec fn insert_outcome(r: Result<Json, Error>, s: Result<JsonV, InsertFail>) -> bool {
    match s {
        Ok(v) => r matches Ok(x) && x@ == v,
        Err(f) => fail_matches(r, f),
    }
}

pub open spec fn fail_matches<T>(r: Result<T, Error>, f: InsertFail) -> bool {
    match f {
        InsertFail::Conflict => r matches Err(Error::ConflictingKeys),
        InsertFail::Shape(seg) => r matches Err(Error::ValueAndNamespace { segment }) && segment@ == seg,
    }
}

/// `content` placed in `tree` at the path `segs`: object nodes are created along
/// the way, and at the last segment `content` is deep-merged with what is there.
pub open spec fn insert_at_spec(tree: JsonV, segs: Seq<Seq<char>>, content: JsonV) -> Result<JsonV, InsertFail>
    decreases segs.len(),
{
    if segs.len() == 0 {
        Ok(tree)
    } else {
        match tree {
            JsonV::Obj(fs) => if segs.len() == 1 {
                match fields_get(fs, segs[0]) {
                    Some(x) => match merge_spec(x, content) {
                        Some(y) => Ok(JsonV::Obj(fields_insert(fs, segs[0], y))),
                        None => Err(InsertFail::Conflict),
                    },
                    None => Ok(JsonV::Obj(fields_insert(fs, segs[0], content))),
                }
            } else {
                let child = match fields_get(fs, segs[0]) {
                    Some(x) => x,
                    None => JsonV::Obj(Seq::empty()),
                };
                match insert_at_spec(child, segs.drop_first(), content) {
                    Ok(c) => Ok(JsonV::Obj(fields_insert(fs, segs[0], c))),
                    Err(e) => Err(e),
                }
            },
            _ => Err(InsertFail::Shape(segs[0])),
        }
    }
}

/// `content` placed in `tree` at `segs[i..]` (see `insert_at_spec`).
fn insert_from(tree: Json, segs: &Vec<String>, i: usize, content: Json) -> (r: Result<Json, Error>)
    requires
        i <= segs@.len(),
    ensures
        insert_outcome(r, insert_at_spec(tree@, views(segs@).subrange(i as int, segs@.len() as int), content@)),
    decreases segs@.len() - i,
{
    let ghost ss = views(segs@).subrange(i as int, segs@.len() as int);
    if i == segs.len() {
        return Ok(tree);
    }
    proof {
        assert(ss[0] == segs@[i as int]@);
        assert(ss.drop_first() =~= views(segs@).subrange(i + 1, segs@.len() as int));
    }
    match tree {
        Json::Object(mut fs) => {
            let ghost vf = view_fields(fs@);
            let ghost seg = segs@[i as int]@;
            proof {
                lemma_view_fields(fs@);
                lemma_fields_index(vf, seg);
            }
            let idx = field_index(&fs, segs[i].as_str());
            if i + 1 == segs.len() {
                match idx {
                    Some(k) => {
                        let (key, x) = fs.remove(k);
                        match merged(x, &content) {
                            Ok(y) => {
                                let ghost yv = y@;
                                fs.insert(k, (key, y));
                                proof {
                                    lemma_view_fields(fs@);
                                    assert(view_fields(fs@) =~= vf.update(k as int, (seg, yv)));
                                }
                                Ok(Json::Object(fs))
                            },
                            Err(e) => Err(e),
                        }
                    },
                    None => {
                        insert_field(&mut fs, copy_string(&segs[i]), content);
                        Ok(Json::Object(fs))
                    },
                }
            } else {
                match idx {
                    Some(k) => {
                        let (key, x) = fs.remove(k);
                        match insert_from(x, segs, i + 1, content) {
                            Ok(c) => {
                                let ghost cv = c@;
                                fs.insert(k, (key, c));
                                proof {
                                    lemma_view_fields(fs@);
                                    assert(view_fields(fs@) =~= vf.update(k as int, (seg, cv)));
                                }
                                Ok(Json::Object(fs))
                            },
                            Err(e) => Err(e),
                        }
                    },
                    None => {
                        match insert_from(Json::object(), segs, i + 1, content) {
                            Ok(c) => {
                                insert_field(&mut fs, copy_string(&segs[i]), c);
                                Ok(Json::Object(fs))
                            },
                            Err(e) => Err(e),
                        }
                    },
                }
            }
        },
        _ => Err(Error::ValueAndNamespace { segment: copy_string(&segs[i]) }),
    }
}

/// Places `content` in `tree` at the path `segments` (see `insert_at_spec`);
/// on failure `tree` holds no meaningful value.
pub fn insert_at(tree: &mut Json, segments: &Vec<String>, content: Json) -> (r: Result<(), Error>)
    ensures
        match insert_at_spec(old(tree)@, views(segments@), content@) {
            Ok(v) => r is Ok && final(tree)@ == v,
            Err(f) => fail_matches(r, f),
        },
{
    let mut cur = Json::Null;
    std::mem::swap(&mut cur, tree);
    proof {
        assert(views(segments@).subrange(0, segments@.len() as int) =~= views(segments@));
    }
    match insert_from(cur, segments, 0, content) {
        Ok(v) => {
            *tree = v;
            Ok(())
        },
        Err(e) => Err(e),
    }
}

/// The catalog map after adding `value` for `locale`: a locale seen before is
/// deep-merged with what it had.
pub open spec fn merge_locale_spec(m: Seq<(Seq<char>, JsonV)>, locale: Seq<char>, value: JsonV) -> Option<Seq<(Seq<char>, JsonV)>> {
    match fields_get(m, locale) {
        Some(x) => match merge_spec(x, value) {
            Some(y) => Some(fields_insert(m, locale, y)),
            None => None,
        },
        None => Some(fields_insert(m, locale, value)),
    }
}

/// Adds `value` to the catalog map under `locale` (see `merge_locale_spec`).
pub fn merge_locale(map: &mut Vec<(String, Json)>, locale: String, value: Json) -> (r: Result<(), Error>)
    ensures
        match merge_locale_spec(view_fields(old(map)@), locale@, value@) {
            Some(m) => r is Ok && view_fields(final(map)@) == m,
            None => r matches Err(Error::ConflictingKeys),
        },
{
    let ghost vf = view_fields(map@);
    proof {
        lemma_view_fields(map@);
        lemma_fields_index(vf, locale@);
    }
    match field_index(map, locale.as_str()) {
        Some(k) => {
            let mut cur = Json::Null;
            std::mem::swap(&mut cur, &mut map[k].1);
            proof {
                lemma_view_fields(map@);
            }
            match merged(cur, &value) {
                Ok(y) => {
                    let ghost yv = y@;
                    let key = copy_string(&map[k].0);
                    map.set(k, (key, y));
                    proof {
                        lemma_view_fields(map@);
                        assert(view_fields(map@) =~= vf.update(k as int, (locale@, yv)));
                    }
                    Ok(())
                },
                Err(e) => Err(e),
            }
        },
        None => {
            insert_field(map, locale, value);
            Ok(())
        },
    }
}

/// Appending an entry to a field list only adds its key, if the key is new.
proof fn lemma_get_push<V>(s: Seq<(Seq<char>, V)>, x: (Seq<char>, V), k: Seq<char>)
    ensures
        fields_get(s.push(x), k) == match fields_get(s, k) {
            Some(v) => Some(v),
            None => if x.0 == k { Some(x.1) } else { None },
        },
    decreases s.len(),
{
    if s.len() > 0 {
        assert(s.push(x).drop_first() =~= s.drop_first().push(x));
        assert(s.push(x)[0] == s[0]);
        lemma_get_push(s.drop_first(), x, k);
    } else {
        assert(s.push(x).drop_first() =~= Seq::<(Seq<char>, V)>::empty());
        assert(s.push(x)[0] == x);
        assert(fields_get(s.push(x).drop_first(), k) is None);
        assert(fields_get(s, k) is None);
    }
}

/// In an ascending list, the last key does not occur before it.
proof fn lemma_last_key_new<V>(fb: Seq<(Seq<char>, V)>)
    requires
        keys_sorted(fb),
        fb.len() > 0,
    ensures
        fields_get(fb.subrange(0, fb.len() - 1), fb[fb.len() - 1].0) is None,
        keys_sorted(fb.subrange(0, fb.len() - 1)),
        fb =~= fb.subrange(0, fb.len() - 1).push(fb[fb.len() - 1]),
{
    let p = fb.subrange(0, fb.len() - 1);
    let k = fb[fb.len() - 1].0;
    lemma_fields_index(p, k);
    if let Some(i) = fields_index(p, k) {
        assert(seq_lt(fb[i].0, fb[fb.len() - 1].0));
        lemma_seq_lt_irrefl(k);
    }
    assert forall|i: int, j: int| 0 <= i < j < p.len() implies seq_lt(#[trigger] p[i].0, #[trigger] p[j].0) by {
        assert(p[i] == fb[i] && p[j] == fb[j]);
    }
}

/// What a successful merge of two field lists keeps.
proof fn lemma_merge_fields_keeps(fa: Seq<(Seq<char>, JsonV)>, fb: Seq<(Seq<char>, JsonV)>)
    requires
        keys_sorted(fa),
        keys_sorted(fb),
    ensures
        merge_fields(fa, fb) matches Some(fc) ==> {
            &&& keys_sorted(fc)
            &&& forall|k: Seq<char>| fields_get(fa, k) is Some ==> #[trigger] fields_get(fc, k) is Some
            &&& forall|k: Seq<char>| fields_get(fb, k) is Some ==> #[trigger] fields_get(fc, k) is Some
            &&& forall|k: Seq<char>| fields_get(fb, k) is None ==> #[trigger] fields_get(fc, k) == fields_get(fa, k)
            &&& forall|k: Seq<char>| fields_get(fa, k) is None ==> #[trigger] fields_get(fc, k) == fields_get(fb, k)
        },
    decreases fb.len(),
{
    if fb.len() > 0 {
        let p = fb.subrange(0, fb.len() - 1);
        let last = fb[fb.len() - 1];
        lemma_last_key_new(fb);
        lemma_merge_fields_keeps(fa, p);
        if let Some(acc) = merge_fields(fa, p) {
            let v = match fields_get(acc, last.0) {
                Some(x) => merge_spec(x, last.1),
                None => Some(last.1),
            };
            if let Some(y) = v {
                let fc = fields_insert(acc, last.0, y);
                assert(merge_fields(fa, fb) == Some(fc));
                lemma_fields_insert(acc, last.0, y);
                assert forall|k: Seq<char>| fields_get(fb, k) is Some implies #[trigger] fields_get(fc, k) is Some by {
                    lemma_get_push(p, last, k);
                    if k != last.0 {
                        assert(fields_get(fc, k) == fields_get(acc, k));
                        assert(fields_get(p, k) is Some);
                    }
                }
                assert forall|k: Seq<char>| fields_get(fb, k) is None implies #[trigger] fields_get(fc, k) == fields_get(fa, k) by {
                    lemma_get_push(p, last, k);
                    assert(k != last.0);
                    assert(fields_get(fc, k) == fields_get(acc, k));
                    assert(fields_get(p, k) is None);
                }
                assert forall|k: Seq<char>| fields_get(fa, k) is None implies #[trigger] fields_get(fc, k) == fields_get(fb, k) by {
                    lemma_get_push(p, last, k);
                    if k != last.0 {
                        assert(fields_get(fc, k) == fields_get(acc, k));
                    }
                }
            }
        }
    }
}

/// A clash on one key, where either side is not an object, sinks the merge.
proof fn lemma_merge_fields_clash(fa: Seq<(Seq<char>, JsonV)>, fb: Seq<(Seq<char>, JsonV)>, k: Seq<char>)
    requires
        keys_sorted(fa),
        keys_sorted(fb),
        fields_get(fa, k) is Some,
        fields_get(fb, k) is Some,
        !(fields_get(fa, k).unwrap() is Obj && fields_get(fb, k).unwrap() is Obj),
    ensures
        merge_fields(fa, fb) is None,
    decreases fb.len(),
{
    let p = fb.subrange(0, fb.len() - 1);
    let last = fb[fb.len() - 1];
    lemma_last_key_new(fb);
    lemma_get_push(p, last, k);
    if fields_get(p, k) is Some {
        lemma_merge_fields_clash(fa, p, k);
    } else {
        lemma_merge_fields_keeps(fa, p);
        if let Some(acc) = merge_fields(fa, p) {
            assert(fields_get(acc, k) == fields_get(fa, k));
            assert(merge_spec(fields_get(fa, k).unwrap(), last.1) is None);
        }
    }
}

/// Deep-merging two catalogs never loses a key: every key of either side is in
/// the result, and a key that only one side defines keeps that side's value.
pub proof fn law_merge_keeps_every_key(fa: Seq<(Seq<char>, JsonV)>, fb: Seq<(Seq<char>, JsonV)>)
    requires
        keys_sorted(fa),
        keys_sorted(fb),
        merge_spec(JsonV::Obj(fa), JsonV::Obj(fb)) is Some,
    ensures
        merge_spec(JsonV::Obj(fa), JsonV::Obj(fb)) matches Some(JsonV::Obj(fc)) && {
            &&& forall|k: Seq<char>| fields_get(fa, k) is Some ==> #[trigger] fields_get(fc, k) is Some
            &&& forall|k: Seq<char>| fields_get(fb, k) is Some ==> #[trigger] fields_get(fc, k) is Some
            &&& forall|k: Seq<char>| fields_get(fb, k) is None ==> #[trigger] fields_get(fc, k) == fields_get(fa, k)
            &&& forall|k: Seq<char>| fields_get(fa, k) is None ==> #[trigger] fields_get(fc, k) == fields_get(fb, k)
        },
{
    lemma_merge_fields_keeps(fa, fb);
}

/// A key defined on both sides, where either definition is a value rather than
/// a namespace, makes the merge fail: split files never silently clobber each other.
pub proof fn law_merge_rejects_clash(fa: Seq<(Seq<char>, JsonV)>, fb: Seq<(Seq<char>, JsonV)>, k: Seq<char>)
    requires
        keys_sorted(fa),
        keys_sorted(fb),
        fields_get(fa, k) is Some,
        fields_get(fb, k) is Some,
        !(fields_get(fa, k).unwrap() is Obj && fields_get(fb, k).unwrap() is Obj),
    ensures
        merge_spec(JsonV::Obj(fa), JsonV::Obj(fb)) is None,
{
    lemma_merge_fields_clash(fa, fb, k);
}

/// The stem of a `.json` file name (`Path::file_stem` where `Path::extension`
/// is `json`): the name without its last five characters, when it ends in
/// `.json` and something comes before.
pub open spec fn json_stem_spec(name: Seq<char>) -> Option<Seq<char>> {
    if name.len() > 5 && name.subrange(name.len() - 5, name.len() as int) == seq!['.', 'j', 's', 'o', 'n'] {
        Some(name.subrange(0, name.len() - 5))
    } else {
        None
    }
}

/// The stem of a `.json` file name, or `None` for a file of another kind.
pub fn json_stem(name: &str) -> (r: Option<String>)
    ensures
        match json_stem_spec(name@) {
            Some(st) => r matches Some(x) && x@ == st,
            None => r is None,
        },
{
    let v = chars_of(name);
    let n = v.len();
    if n > 5 && v[n - 5] == '.' && v[n - 4] == 'j' && v[n - 3] == 's' && v[n - 2] == 'o' && v[n - 1] == 'n' {
        proof {
            assert(name@.subrange(n - 5, n as int) =~= seq!['.', 'j', 's', 'o', 'n']);
        }
        let stem = subchars(&v, 0, n - 5);
        Some(string_of(&stem))
    } else {
        proof {
            if n > 5 {
                let t = name@.subrange(n - 5, n as int);
                if t == seq!['.', 'j', 's', 'o', 'n'] {
                    assert(t[0] == v@[n - 5] && t[1] == v@[n - 4] && t[2] == v@[n - 3] && t[3] == v@[n - 2] && t[4] == v@[n - 1]);
                }
            }
        }
        None
    }
}

/// An entry of a locales directory as read from disk: a folder with its
/// entries, or a file with its parsed content (`Json::Null` for a file that is
/// not `.json`, whose content nothing reads).
pub enum Entry {
    Dir { name: String, entries: Vec<Entry> },
    File { name: String, content: Json },
}

/// Mathematical model of a directory entry.
pub enum EntryV {
    Dir(Seq<char>, Seq<EntryV>),
    File(Seq<char>, JsonV),
}

pub open spec fn entry_view(e: Entry) -> EntryV
    decreases e,
{
    match e {
        Entry::Dir { name, entries } => EntryV::Dir(name@, view_entries(entries@)),
        Entry::File { name, content } => EntryV::File(name@, content@),
    }
}

pub open spec fn view_entries(s: Seq<Entry>) -> Seq<EntryV>
    decreases s,
{
    if s.len() == 0 {
        Seq::empty()
    } else {
        seq![entry_view(s[0])] + view_entries(s.subrange(1, s.len() as int))
    }
}

impl View for Entry {
    type V = EntryV;

    open spec fn view(&self) -> EntryV {
        entry_view(*self)
    }
}

pub proof fn lemma_view_entries(s: Seq<Entry>)
    ensures
        view_entries(s).len() == s.len(),
        forall|i: int| 0 <= i < s.len() ==> #[trigger] view_entries(s)[i] == entry_view(s[i]),
    decreases s.len(),
{
    if s.len() > 0 {
        lemma_view_entries(s.subrange(1, s.len() as int));
    }
}

pub open spec fn entry_name(e: EntryV) -> Seq<char> {
    match e {
        EntryV::Dir(n, _) => n,
        EntryV::File(n, _) => n,
    }
}

/// The entries in ascending name order, each by its position (directory
/// entries are read sorted by path).
pub open spec fn name_order(es: Seq<EntryV>) -> Seq<(Seq<char>, int)>
    decreases es.len(),
{
    if es.len() == 0 {
        Seq::empty()
    } else {
        fields_insert(name_order(es.drop_last()), entry_name(es.last()), es.len() - 1)
    }
}

/// Every position in an order is a position of `n` entries.
pub open spec fn positions_below(s: Seq<(Seq<char>, int)>, n: int) -> bool {
    forall|j: int| 0 <= j < s.len() ==> 0 <= #[trigger] s[j].1 < n
}

proof fn lemma_positions_insert(s: Seq<(Seq<char>, int)>, k: Seq<char>, v: int, n: int)
    requires
        positions_below(s, n),
        0 <= v < n,
    ensures
        positions_below(fields_insert(s, k, v), n),
{
    lemma_fields_index(s, k);
    lemma_insert_pos(s, k);
    let r = fields_insert(s, k, v);
    assert forall|j: int| 0 <= j < r.len() implies 0 <= #[trigger] r[j].1 < n by {
        match fields_index(s, k) {
            Some(i) => {
                if j != i {
                    assert(r[j] == s[j]);
                }
            },
            None => {
                let p = insert_pos(s, k);
                if j < p {
                    assert(r[j] == s[j]);
                } else if j > p {
                    assert(r[j] == s[j - 1]);
                }
            },
        }
    }
}

pub open spec fn order_view(s: Seq<(String, usize)>) -> Seq<(Seq<char>, int)> {
    s.map_values(|p: (String, usize)| (p.0@, p.1 as int))
}

/// The positions of `es` in ascending name order (see `name_order`).
fn name_order_exec(es: &Vec<Entry>) -> (r: Vec<(String, usize)>)
    ensures
        order_view(r@) == name_order(view_entries(es@)),
        positions_below(name_order(view_entries(es@)), es@.len() as int),
{
    let ghost ve = view_entries(es@);
    proof {
        lemma_view_entries(es@);
    }
    let mut r: Vec<(String, usize)> = Vec::new();
    let mut i: usize = 0;
    proof {
        assert(ve.subrange(0, 0) =~= Seq::<EntryV>::empty());
        assert(order_view(r@) =~= Seq::<(Seq<char>, int)>::empty());
    }
    while i < es.len()
        invariant
            i <= es@.len(),
            ve == view_entries(es@),
            ve.len() == es@.len(),
            forall|j: int| 0 <= j < es@.len() ==> #[trigger] ve[j] == entry_view(es@[j]),
            order_view(r@) == name_order(ve.subrange(0, i as int)),
            positions_below(name_order(ve.subrange(0, i as int)), i as int),
        decreases es@.len() - i,
    {
        let name = match &es[i] {
            Entry::Dir { name, entries: _ } => copy_string(name),
            Entry::File { name, content: _ } => copy_string(name),
        };
        let ghost before = r@;
        let ghost nm = name@;
        proof {
            let t = ve.subrange(0, i + 1);
            assert(t.drop_last() =~= ve.subrange(0, i as int));
            assert(t.last() == ve[i as int]);
            assert(entry_name(ve[i as int]) == name@);
            lemma_positions_insert(name_order(ve.subrange(0, i as int)), name@, i as int, i + 1);
        }
        assoc_insert(&mut r, name, i);
        proof {
            let f = |u: usize| u as int;
            assert(order_view(r@) =~= map_vals(kv_view(r@), f));
            assert(order_view(before) =~= map_vals(kv_view(before), f));
            lemma_map_vals_insert(kv_view(before), f, nm, i);
        }
        i = i + 1;
    }
    proof {
        assert(ve.subrange(0, es@.len() as int) =~= ve);
    }
    r
}

/// A file of a locale folder: where it mounts in the catalog (folder names and
/// file stem) and its path under the locale folder, `/`-separated.
pub struct FolderFile {
    pub mount: Vec<String>,
    pub rel: String,
}

/// A `.json` file found under a folder, by view: mount, relative path, content.
pub type MountV = (Seq<Seq<char>>, Seq<char>, JsonV);

/// The `.json` files under `e`, in ascending path order, mounted below `segs`
/// and with paths below `rel`.
pub open spec fn flat_entry(e: EntryV, segs: Seq<Seq<char>>, rel: Seq<char>) -> Seq<MountV>
    decreases e, 0int,
{
    match e {
        EntryV::Dir(name, kids) => flat_dir(kids, name_order(kids).len() as int, segs.push(name), rel + name + seq!['/']),
        EntryV::File(name, c) => match json_stem_spec(name) {
            Some(stem) => seq![(segs.push(stem), rel + name, c)],
            None => Seq::empty(),
        },
    }
}

/// The `.json` files under the first `n` entries of `kids` in name order.
pub open spec fn flat_dir(kids: Seq<EntryV>, n: int, segs: Seq<Seq<char>>, rel: Seq<char>) -> Seq<MountV>
    decreases kids, n,
{
    if n <= 0 {
        Seq::empty()
    } else {
        let ord = name_order(kids);
        let j = if n <= ord.len() { ord[n - 1].1 } else { -1 };
        flat_dir(kids, n - 1, segs, rel) + if 0 <= j < kids.len() {
            flat_entry(kids[j], segs, rel)
        } else {
            Seq::empty()
        }
    }
}

/// Every `.json` file under a folder's entries, in ascending path order.
pub open spec fn flat_all(kids: Seq<EntryV>, segs: Seq<Seq<char>>, rel: Seq<char>) -> Seq<MountV> {
    flat_dir(kids, name_order(kids).len() as int, segs, rel)
}

pub open spec fn mount_view(m: (FolderFile, Json)) -> MountV {
    (views(m.0.mount@), m.0.rel@, m.1@)
}

pub open spec fn mounts_view(s: Seq<(FolderFile, Json)>) -> Seq<MountV> {
    s.map_values(|m: (FolderFile, Json)| mount_view(m))
}

/// A copy of a list of strings.
fn copy_strings(v: &Vec<String>) -> (r: Vec<String>)
    ensures
        views(r@) == views(v@),
{
    let mut r: Vec<String> = Vec::new();
    let mut i: usize = 0;
    while i < v.len()
        invariant
            i <= v@.len(),
            r@.len() == i,
            views(r@) == views(v@).take(i as int),
        decreases v@.len() - i,
    {
        let ghost before = r@;
        let c = copy_string(&v[i]);
        r.push(c);
        proof {
            assert forall|j: int| 0 <= j < i + 1 implies #[trigger] views(r@)[j] == views(v@).take(i + 1)[j] by {
                if j < i {
                    assert(r@[j] == before[j]);
                    assert(views(before)[j] == views(v@).take(i as int)[j]);
                }
            }
            assert(views(r@) =~= views(v@).take(i + 1));
        }
        i = i + 1;
    }
    proof {
        assert(views(v@).take(v@.len() as int) =~= views(v@));
    }
    r
}

/// Appends every `.json` file under `es` (see `flat_all`) to `out`.
fn flat_into(es: &Vec<Entry>, segs: &mut Vec<String>, rel: &String, out: &mut Vec<(FolderFile, Json)>)
    ensures
        final(segs)@ == old(segs)@,
        mounts_view(final(out)@) == mounts_view(old(out)@) + flat_all(view_entries(es@), views(old(segs)@), rel@),
    decreases es@,
{
    let ghost ve = view_entries(es@);
    let ghost sv = views(segs@);
    let ord = name_order_exec(es);
    proof {
        lemma_view_entries(es@);
        assert(mounts_view(out@) =~= mounts_view(out@) + flat_dir(ve, 0, sv, rel@));
    }
    let mut n: usize = 0;
    while n < ord.len()
        invariant
            n <= ord@.len(),
            ve == view_entries(es@),
            ve.len() == es@.len(),
            forall|j: int| 0 <= j < es@.len() ==> #[trigger] ve[j] == entry_view(es@[j]),
            order_view(ord@) == name_order(ve),
            positions_below(name_order(ve), es@.len() as int),
            segs@ == old(segs)@,
            sv == views(segs@),
            mounts_view(out@) == mounts_view(old(out)@) + flat_dir(ve, n as int, sv, rel@),
        decreases ord@.len() - n,
    {
        let j = ord[n].1;
        proof {
            assert(order_view(ord@)[n as int] == (ord@[n as int].0@, j as int));
            assert(name_order(ve)[n as int].1 == j);
            assert(0 <= j < es@.len());
            assert(decreases_to!(es@ => es@[j as int]));
        }
        let ghost before = mounts_view(out@);
        match &es[j] {
            Entry::Dir { name, entries } => {
                proof {
                    assert(decreases_to!(es@[j as int] => entries));
                }
                segs.push(copy_string(name));
                let r2 = concat3(rel.as_str(), name.as_str(), "/");
                proof {
                    reveal_strlit("/");
                    assert(views(segs@) =~= sv.push(name@));
                    assert(r2@ =~= rel@ + name@ + seq!['/']);
                }
                flat_into(entries, segs, &r2, out);
                segs.pop();
                proof {
                    assert(segs@ =~= old(segs)@);
                }
            },
            Entry::File { name, content } => {
                match json_stem(name.as_str()) {
                    Some(stem) => {
                        let mut m = copy_strings(segs);
                        m.push(stem);
                        let ff = FolderFile { mount: m, rel: concat(rel.as_str(), name.as_str()) };
                        out.push((ff, content.copy()));
                        proof {
                            assert(views(ff.mount@) =~= sv.push(stem@));
                            assert(mounts_view(out@) =~= before + seq![(sv.push(stem@), rel@ + name@, content@)]);
                        }
                    },
                    None => {},
                }
            },
        }
        proof {
            assert(flat_dir(ve, n + 1, sv, rel@) == flat_dir(ve, n as int, sv, rel@) + flat_entry(ve[j as int], sv, rel@));
            assert(mounts_view(out@) =~= mounts_view(old(out)@) + flat_dir(ve, n + 1, sv, rel@));
        }
        n = n + 1;
    }
}

/// Every `.json` file of a locale folder: its mount and path (see `flat_all`).
pub fn collect_files(entries: &Vec<Entry>) -> (r: Vec<FolderFile>)
    ensures
        r@.len() == flat_all(view_entries(entries@), seq![], seq![]).len(),
        forall|i: int| 0 <= i < r@.len() ==> {
            let f = #[trigger] flat_all(view_entries(entries@), seq![], seq![])[i];
            views(r@[i].mount@) == f.0 && r@[i].rel@ == f.1
        },
{
    let mut segs: Vec<String> = Vec::new();
    let rel = String::new();
    let mut all: Vec<(FolderFile, Json)> = Vec::new();
    proof {
        assert(views(segs@) =~= Seq::<Seq<char>>::empty());
        assert(rel@ =~= Seq::<char>::empty());
    }
    flat_into(entries, &mut segs, &rel, &mut all);
    let ghost fl = flat_all(view_entries(entries@), seq![], seq![]);
    proof {
        assert(mounts_view(all@) =~= fl);
    }
    let mut r: Vec<FolderFile> = Vec::new();
    let mut i: usize = 0;
    while i < all.len()
        invariant
            i <= all@.len(),
            mounts_view(all@) == fl,
            r@.len() == i,
            forall|j: int| 0 <= j < i ==> views(r@[j].mount@) == #[trigger] fl[j].0 && r@[j].rel@ == fl[j].1,
        decreases all@.len() - i,
    {
        proof {
            assert(mounts_view(all@)[i as int] == mount_view(all@[i as int]));
        }
        let f = FolderFile { mount: copy_strings(&all[i].0.mount), rel: copy_string(&all[i].0.rel) };
        r.push(f);
        i = i + 1;
    }
    r
}

/// How a locale is stored: one file `<locale>.json`, or a folder of files.
pub enum Layout {
    Single,
    Folder { files: Vec<FolderFile> },
}

/// How a locale is laid out, from what is on disk: `folder` is the listing of
/// the folder `<locale>/` where it exists (preferred), `single_file` whether
/// `<locale>.json` exists; `None` when neither does.
pub fn locale_layout(folder: Option<&Vec<Entry>>, single_file: bool) -> (r: Option<Layout>)
    ensures
        match folder {
            Some(es) => r matches Some(Layout::Folder { files }) && files@.len() == flat_all(view_entries(es@), seq![], seq![]).len()
                && forall|i: int| 0 <= i < files@.len() ==> {
                    let f = #[trigger] flat_all(view_entries(es@), seq![], seq![])[i];
                    views(files@[i].mount@) == f.0 && files@[i].rel@ == f.1
                },
            None => if single_file { r matches Some(Layout::Single) } else { r is None },
        },
{
    match folder {
        Some(es) => Some(Layout::Folder { files: collect_files(es) }),
        None => if single_file { Some(Layout::Single) } else { None },
    }
}

/// `tree` with each file's content placed at its mount, in order; the first
/// failing placement is the outcome.
pub open spec fn insert_all(tree: JsonV, ms: Seq<MountV>) -> Result<JsonV, InsertFail>
    decreases ms.len(),
{
    if ms.len() == 0 {
        Ok(tree)
    } else {
        match insert_all(tree, ms.drop_last()) {
            Ok(t) => insert_at_spec(t, ms.last().0, ms.last().2),
            Err(e) => Err(e),
        }
    }
}

proof fn lemma_insert_all_err(tree: JsonV, ms: Seq<MountV>, k: int)
    requires
        0 <= k <= ms.len(),
        insert_all(tree, ms.take(k)) is Err,
    ensures
        insert_all(tree, ms) == insert_all(tree, ms.take(k)),
    decreases ms.len() - k,
{
    if k < ms.len() {
        let t = ms.take(k + 1);
        assert(t.drop_last() =~= ms.take(k));
        lemma_insert_all_err(tree, ms, k + 1);
    } else {
        assert(ms.take(k) =~= ms);
    }
}

/// Reads a locale folder into `tree`: every `.json` file under `entries`, in
/// ascending path order, is deep-merged in at the path of its folder names and
/// file stem. On failure `tree` holds no meaningful value.
pub fn load_dir_into(entries: &Vec<Entry>, tree: &mut Json) -> (r: Result<(), Error>)
    ensures
        match insert_all(old(tree)@, flat_all(view_entries(entries@), seq![], seq![])) {
            Ok(v) => r is Ok && final(tree)@ == v,
            Err(f) => fail_matches(r, f),
        },
{
    let mut segs: Vec<String> = Vec::new();
    let rel = String::new();
    let mut all: Vec<(FolderFile, Json)> = Vec::new();
    proof {
        assert(views(segs@) =~= Seq::<Seq<char>>::empty());
        assert(rel@ =~= Seq::<char>::empty());
    }
    flat_into(entries, &mut segs, &rel, &mut all);
    let ghost fl = flat_all(view_entries(entries@), seq![], seq![]);
    let ghost t0 = tree@;
    proof {
        assert(mounts_view(all@) =~= fl);
        assert(fl.take(0) =~= Seq::<MountV>::empty());
    }
    let mut i: usize = 0;
    while i < all.len()
        invariant
            i <= all@.len(),
            mounts_view(all@) == fl,
            fl == flat_all(view_entries(entries@), seq![], seq![]),
            t0 == old(tree)@,
            fl.len() == all@.len(),
            insert_all(t0, fl.take(i as int)) == Ok::<JsonV, InsertFail>(tree@),
        decreases all@.len() - i,
    {
        proof {
            assert(mounts_view(all@)[i as int] == mount_view(all@[i as int]));
            let t = fl.take(i + 1);
            assert(t.drop_last() =~= fl.take(i as int));
            assert(t.last() == fl[i as int]);
        }
        let content = all[i].1.copy();
        match insert_at(tree, &all[i].0.mount, content) {
            Ok(()) => {},
            Err(e) => {
                proof {
                    lemma_insert_all_err(t0, fl, i + 1);
                }
                return Err(e);
            },
        }
        i = i + 1;
    }
    proof {
        assert(fl.take(all@.len() as int) =~= fl);
    }
    Ok(())
}

/// The catalog after the first `n` top-level entries in name order: a folder
/// is a locale named after it, a `.json` file a locale named by its stem; the
/// rest is skipped.
pub open spec fn load_spec(es: Seq<EntryV>, n: int) -> Result<Seq<(Seq<char>, JsonV)>, InsertFail>
    decreases n,
{
    if n <= 0 {
        Ok(Seq::empty())
    } else {
        match load_spec(es, n - 1) {
            Err(e) => Err(e),
            Ok(m) => {
                let ord = name_order(es);
                let j = if n <= ord.len() { ord[n - 1].1 } else { -1 };
                if 0 <= j < es.len() {
                    match es[j] {
                        EntryV::Dir(name, kids) => match insert_all(JsonV::Obj(Seq::empty()), flat_all(kids, seq![], seq![])) {
                            Err(e) => Err(e),
                            Ok(t) => match merge_locale_spec(m, name, t) {
                                Some(m2) => Ok(m2),
                                None => Err(InsertFail::Conflict),
                            },
                        },
                        EntryV::File(name, c) => match json_stem_spec(name) {
                            Some(stem) => match merge_locale_spec(m, stem, c) {
                                Some(m2) => Ok(m2),
                                None => Err(InsertFail::Conflict),
                            },
                            None => Ok(m),
                        },
                    }
                } else {
                    Ok(m)
                }
            },
        }
    }
}

proof fn lemma_load_err(es: Seq<EntryV>, n: int, k: int)
    requires
        0 <= k <= n,
        load_spec(es, k) is Err,
    ensures
        load_spec(es, n) == load_spec(es, k),
    decreases n - k,
{
    if k < n {
        lemma_load_err(es, n, k + 1);
    }
}

/// Loads every locale of a locales directory, given its entries: one file
/// `<locale>.json` or a folder `<locale>/` (or both), each deep-merged into
/// the locale's tree (see `load_spec`).
pub fn load_locales(entries: &Vec<Entry>) -> (r: Result<Vec<(String, Json)>, Error>)
    ensures
        match load_spec(view_entries(entries@), name_order(view_entries(entries@)).len() as int) {
            Ok(m) => r matches Ok(x) && view_fields(x@) == m,
            Err(f) => fail_matches(r, f),
        },
{
    let ghost ve = view_entries(entries@);
    let ord = name_order_exec(entries);
    proof {
        lemma_view_entries(entries@);
        assert(view_fields(Seq::<(String, Json)>::empty()) =~= Seq::<(Seq<char>, JsonV)>::empty());
    }
    let mut map: Vec<(String, Json)> = Vec::new();
    let mut n: usize = 0;
    while n < ord.len()
        invariant
            n <= ord@.len(),
            ve == view_entries(entries@),
            ve.len() == entries@.len(),
            forall|j: int| 0 <= j < entries@.len() ==> #[trigger] ve[j] == entry_view(entries@[j]),
            order_view(ord@) == name_order(ve),
            positions_below(name_order(ve), entries@.len() as int),
            load_spec(ve, n as int) == Ok::<Seq<(Seq<char>, JsonV)>, InsertFail>(view_fields(map@)),
        decreases ord@.len() - n,
    {
        let j = ord[n].1;
        proof {
            assert(order_view(ord@)[n as int] == (ord@[n as int].0@, j as int));
            assert(name_order(ve)[n as int].1 == j);
        }
        match &entries[j] {
            Entry::Dir { name, entries: kids } => {
                let mut tree = Json::object();
                match load_dir_into(kids, &mut tree) {
                    Ok(()) => {},
                    Err(e) => {
                        proof {
                            lemma_load_err(ve, name_order(ve).len() as int, n + 1);
                        }
                        return Err(e);
                    },
                }
                match merge_locale(&mut map, copy_string(name), tree) {
                    Ok(()) => {},
                    Err(e) => {
                        proof {
                            lemma_load_err(ve, name_order(ve).len() as int, n + 1);
                        }
                        return Err(e);
                    },
                }
            },
            Entry::File { name, content } => {
                match json_stem(name.as_str()) {
                    Some(stem) => {
                        match merge_locale(&mut map, stem, content.copy()) {
                            Ok(()) => {},
                            Err(e) => {
                                proof {
                                    lemma_load_err(ve, name_order(ve).len() as int, n + 1);
                                }
                                return Err(e);
                            },
                        }
                    },
                    None => {},
                }
            },
        }
        n = n + 1;
    }
    Ok(map)
}

} // verus!
