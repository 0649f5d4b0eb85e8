//! The language-neutral intermediate representation every emitter consumes, and
//! how it is built from the locale catalogs.

use vstd::prelude::*;
use crate::error::Error;
use crate::assoc::{assoc_insert, kv_view, lemma_map_vals_insert, map_vals};
use crate::json::{catalog_wf, field_index, fields_get, fields_index, fields_insert, json_view, keys_sorted, lemma_fields_index, lemma_fields_insert, lemma_view_fields, view_fields, Json, JsonV};
use crate::emit::{emittable, has_table};
use crate::check::{is_category, member, some_table_fails, str_of};
use crate::placeholder::{normalize, normalize_spec, placeholder_names, placeholder_names_spec, dedup, lemma_dedup_contains};
use crate::plural::{build_plural_table, plural_error_for, plural_table_fails, plural_table_ok};
use crate::text::{copy_string, join, owned, push_str, seq_join, str_eq, views};
use crate::assoc::{assoc_index, contains_str, set_add_all, set_extend};

verus! {

/// The IR: the canonical locale, every locale (in ascending order), one message
/// per catalog leaf of the canonical locale, and each locale's baked plural table.
pub struct Ir {
    pub canonical: String,
    pub locales: Vec<String>,
    pub messages: Vec<Message>,
    /// Per-locale plural tables, in ascending locale order.
    pub plural_rules: Vec<(String, PluralTable)>,
}

/// A baked plural-category lookup for one locale. `small[n]` covers n in 0..100;
/// `modulo[n % 100]` covers n >= 100. `categories` is the set of categories the
/// locale's rules name.
pub struct PluralTable {
    pub categories: Vec<String>,
    pub small: Vec<String>,
    pub modulo: Vec<String>,
}

pub struct Message {
    pub path: Vec<String>,
    pub params: Vec<Param>,
    pub kind: Kind,
    /// Each locale's text, in ascending locale order.
    pub values: Vec<(String, MessageValue)>,
}

pub struct Param {
    pub name: String,
    pub ty: ParamType,
}

#[derive(PartialEq, Eq, Structural, Clone, Copy, Debug)]
pub enum ParamType {
    String,
    Number,
}

#[derive(PartialEq, Eq, Structural, Clone, Copy, Debug)]
pub enum Kind {
    Plain,
    Plural,
}

pub enum MessageValue {
    Plain(String),
    /// Plural forms by category, in ascending category-name order.
    Plural(Vec<(String, String)>),
}

/// A dotted key: the path segments joined with `.`.
pub open spec fn dotted_spec(path: Seq<String>) -> Seq<char> {
    seq_join(views(path), "."@)
}

impl Message {
    /// The message's dotted key.
    pub fn dotted(&self) -> (r: String)
        ensures
            r@ == dotted_spec(self.path@),
    {
        join(&self.path, ".")
    }
}

/// Model of a parameter: its name and type.
pub open spec fn param_view(p: Param) -> (Seq<char>, ParamType) {
    (p.name@, p.ty)
}

pub open spec fn params_view(s: Seq<Param>) -> Seq<(Seq<char>, ParamType)> {
    s.map_values(|p: Param| param_view(p))
}

/// A placeholder named `count` is the plural count, a number; any other is a string.
pub open spec fn param_type_of(name: Seq<char>) -> ParamType {
    if name == "count"@ {
        ParamType::Number
    } else {
        ParamType::String
    }
}

/// The parameters of a catalog string: its placeholder names, first occurrences
/// only, in order of appearance, each with its type.
pub open spec fn params_spec(s: Seq<char>) -> Seq<(Seq<char>, ParamType)> {
    dedup(placeholder_names_spec(s)).map_values(|n: Seq<char>| (n, param_type_of(n)))
}

/// Model of a message value.
pub enum ValV {
    Plain(Seq<char>),
    Plural(Seq<(Seq<char>, Seq<char>)>),
}

pub open spec fn value_view(v: MessageValue) -> ValV {
    match v {
        MessageValue::Plain(s) => ValV::Plain(s@),
        MessageValue::Plural(fs) => ValV::Plural(fs@.map_values(|p: (String, String)| (p.0@, p.1@))),
    }
}

pub open spec fn values_view(s: Seq<(String, MessageValue)>) -> Seq<(Seq<char>, ValV)> {
    s.map_values(|p: (String, MessageValue)| (p.0@, value_view(p.1)))
}

/// Model of a message.
pub struct MsgV {
    pub path: Seq<Seq<char>>,
    pub params: Seq<(Seq<char>, ParamType)>,
    pub kind: Kind,
    pub values: Seq<(Seq<char>, ValV)>,
}

impl View for Message {
    type V = MsgV;

    open spec fn view(&self) -> MsgV {
        MsgV { path: views(self.path@), params: params_view(self.params@), kind: self.kind, values: values_view(self.values@) }
    }
}

pub open spec fn messages_view(s: Seq<Message>) -> Seq<MsgV> {
    s.map_values(|m: Message| m@)
}

fn dedup_contains(v: &Vec<Param>, name: &str) -> (r: bool)
    ensures
        r == params_view(v@).map_values(|p: (Seq<char>, ParamType)| p.0).contains(name@),
{
    let ghost names = params_view(v@).map_values(|p: (Seq<char>, ParamType)| p.0);
    let mut i: usize = 0;
    while i < v.len()
        invariant
            i <= v@.len(),
            names == params_view(v@).map_values(|p: (Seq<char>, ParamType)| p.0),
            forall|j: int| 0 <= j < i ==> names[j] != name@,
        decreases v@.len() - i,
    {
        if str_eq(v[i].name.as_str(), name) {
            proof {
                assert(names[i as int] == name@);
            }
            return true;
        }
        i = i + 1;
    }
    false
}

/// The parameters of a catalog string (see `params_spec`).
pub fn params_from(s: &str) -> (r: Vec<Param>)
    ensures
        params_view(r@) == params_spec(s@),
{
    let names = placeholder_names(s);
    let ghost nv = placeholder_names_spec(s@);
    let mut seen: Vec<Param> = Vec::new();
    let mut i: usize = 0;
    proof {
        assert(params_view(seen@) =~= dedup(nv.take(0)).map_values(|n: Seq<char>| (n, param_type_of(n))));
    }
    while i < names.len()
        invariant
            i <= names@.len(),
            nv == placeholder_names_spec(s@),
            names@.len() == nv.len(),
            forall|k: int| 0 <= k < names@.len() ==> #[trigger] names@[k]@ == nv[k],
            params_view(seen@) == dedup(nv.take(i as int)).map_values(|n: Seq<char>| (n, param_type_of(n))),
        decreases names@.len() - i,
    {
        let ghost d = dedup(nv.take(i as int));
        proof {
            assert(nv.take(i + 1).drop_last() =~= nv.take(i as int));
            assert(nv.take(i + 1).last() == nv[i as int]);
            assert(params_view(seen@).map_values(|p: (Seq<char>, ParamType)| p.0) =~= d);
        }
        let name = &names[i];
        if !dedup_contains(&seen, name.as_str()) {
            let ty = if str_eq(name.as_str(), "count") {
                ParamType::Number
            } else {
                ParamType::String
            };
            let ghost before = seen@;
            seen.push(Param { name: copy_string(name), ty });
            proof {
                assert(params_view(seen@) =~= d.push(nv[i as int]).map_values(|n: Seq<char>| (n, param_type_of(n))));
            }
        }
        i = i + 1;
    }
    proof {
        assert(nv.take(i as int) =~= nv);
    }
    seen
}

/// The node at `path` under `root`, following object members.
pub open spec fn lookup_spec(root: JsonV, path: Seq<Seq<char>>) -> Option<JsonV>
    decreases path.len(),
{
    if path.len() == 0 {
        Some(root)
    } else {
        match member(root, path[0]) {
            Some(c) => lookup_spec(c, path.drop_first()),
            None => None,
        }
    }
}

/// The string forms of a `$plural` object, normalized, by category.
pub open spec fn forms_spec(fs: Seq<(Seq<char>, JsonV)>) -> Seq<(Seq<char>, Seq<char>)>
    decreases fs.len(),
{
    if fs.len() == 0 {
        Seq::empty()
    } else {
        let prev = forms_spec(fs.drop_last());
        match str_of(fs.last().1) {
            Some(t) => fields_insert(prev, fs.last().0, normalize_spec(t)),
            None => prev,
        }
    }
}

/// A leaf as a message value: a normalized string, or a `$plural`'s string forms.
pub open spec fn to_value_spec(v: JsonV, plural: bool) -> Option<ValV> {
    if plural {
        match member(v, "$plural"@) {
            Some(JsonV::Obj(fs)) => Some(ValV::Plural(forms_spec(fs))),
            _ => None,
        }
    } else {
        match v {
            JsonV::Str(s) => Some(ValV::Plain(normalize_spec(s))),
            _ => None,
        }
    }
}

/// The value of the leaf at `path` in `root`, if it has the expected shape.
pub open spec fn value_at(root: JsonV, path: Seq<Seq<char>>, plural: bool) -> Option<ValV> {
    match lookup_spec(root, path) {
        Some(v) => to_value_spec(v, plural),
        None => None,
    }
}

/// The value a locale gets: its own, else the canonical locale's, else an empty string.
pub open spec fn resolved_value(root: JsonV, canon_root: JsonV, path: Seq<Seq<char>>, plural: bool) -> ValV {
    match value_at(root, path, plural) {
        Some(v) => v,
        None => match value_at(canon_root, path, plural) {
            Some(v) => v,
            None => ValV::Plain(Seq::empty()),
        },
    }
}

/// Every locale's value for `path`, by locale.
pub open spec fn collect_values_spec(
    path: Seq<Seq<char>>,
    locales: Seq<(Seq<char>, JsonV)>,
    canon_root: JsonV,
    plural: bool,
) -> Seq<(Seq<char>, ValV)>
    decreases locales.len(),
{
    if locales.len() == 0 {
        Seq::empty()
    } else {
        fields_insert(
            collect_values_spec(path, locales.drop_last(), canon_root, plural),
            locales.last().0,
            resolved_value(locales.last().1, canon_root, path, plural),
        )
    }
}

/// Where building the IR stops.
pub enum IrErr {
    PluralNotObject(Seq<char>),
    PluralMissingOther(Seq<char>),
    PluralUnknownCategory(Seq<char>, Seq<char>),
    PluralFormNotString(Seq<char>, Seq<char>),
}

pub open spec fn error_matches(e: Error, x: IrErr) -> bool {
    match (e, x) {
        (Error::PluralNotObject { key }, IrErr::PluralNotObject(k)) => key@ == k,
        (Error::PluralMissingOther { key }, IrErr::PluralMissingOther(k)) => key@ == k,
        (Error::PluralUnknownCategory { key, category }, IrErr::PluralUnknownCategory(k, c)) => key@ == k && category@ == c,
        (Error::PluralFormNotString { key, category }, IrErr::PluralFormNotString(k, c)) => key@ == k && category@ == c,
        _ => false,
    }
}

/// `ps` extended with the parameters of `new` it lacks, `count` excepted.
pub open spec fn merge_params(ps: Seq<(Seq<char>, ParamType)>, new: Seq<(Seq<char>, ParamType)>) -> Seq<(Seq<char>, ParamType)>
    decreases new.len(),
{
    if new.len() == 0 {
        ps
    } else {
        let prev = merge_params(ps, new.drop_last());
        let p = new.last();
        if p.0 != "count"@ && !prev.map_values(|q: (Seq<char>, ParamType)| q.0).contains(p.0) {
            prev.push(p)
        } else {
            prev
        }
    }
}

/// A plural's parameters: `count`, then every placeholder used in any form, in
/// order; stops at the first unknown category or non-string form.
pub open spec fn plural_params(forms: Seq<(Seq<char>, JsonV)>, d: Seq<char>) -> Result<Seq<(Seq<char>, ParamType)>, IrErr>
    decreases forms.len(),
{
    if forms.len() == 0 {
        Ok(seq![("count"@, ParamType::Number)])
    } else {
        match plural_params(forms.drop_last(), d) {
            Err(e) => Err(e),
            Ok(ps) => {
                let cat = forms.last().0;
                if !is_category(cat) {
                    Err(IrErr::PluralUnknownCategory(d, cat))
                } else {
                    match str_of(forms.last().1) {
                        None => Err(IrErr::PluralFormNotString(d, cat)),
                        Some(t) => Ok(merge_params(ps, params_spec(t))),
                    }
                }
            },
        }
    }
}

/// The parameters of the `$plural` value `pl` at dotted key `d`, or why it is malformed.
pub open spec fn plural_shape(pl: JsonV, d: Seq<char>) -> Result<Seq<(Seq<char>, ParamType)>, IrErr> {
    match pl {
        JsonV::Obj(forms) => if fields_get(forms, "other"@) is None {
            Err(IrErr::PluralMissingOther(d))
        } else {
            plural_params(forms, d)
        },
        _ => Err(IrErr::PluralNotObject(d)),
    }
}

/// The messages of the entry `k: v` under `path`, appended to `msgs`.
pub open spec fn ir_entry(
    k: Seq<char>,
    v: JsonV,
    path: Seq<Seq<char>>,
    locales: Seq<(Seq<char>, JsonV)>,
    canon_root: JsonV,
    msgs: Seq<MsgV>,
) -> Result<Seq<MsgV>, IrErr>
    decreases v,
{
    let p = path.push(k);
    let d = seq_join(p, "."@);
    match v {
        JsonV::Str(s) => Ok(msgs.push(MsgV {
            path: p,
            params: params_spec(s),
            kind: Kind::Plain,
            values: collect_values_spec(p, locales, canon_root, false),
        })),
        JsonV::Obj(fs) => if fields_get(fs, "$plural"@) is Some {
            match plural_shape(fields_get(fs, "$plural"@).unwrap(), d) {
                Err(e) => Err(e),
                Ok(params) => Ok(msgs.push(MsgV {
                    path: p,
                    params,
                    kind: Kind::Plural,
                    values: collect_values_spec(p, locales, canon_root, true),
                })),
            }
        } else {
            ir_fields(fs, p, locales, canon_root, msgs)
        },
        _ => Ok(msgs),
    }
}

/// The messages of every entry of an object under `path`, in order.
pub open spec fn ir_fields(
    fs: Seq<(Seq<char>, JsonV)>,
    path: Seq<Seq<char>>,
    locales: Seq<(Seq<char>, JsonV)>,
    canon_root: JsonV,
    msgs: Seq<MsgV>,
) -> Result<Seq<MsgV>, IrErr>
    decreases fs,
{
    if fs.len() == 0 {
        Ok(msgs)
    } else {
        let last = fs[fs.len() - 1];
        match ir_fields(fs.subrange(0, fs.len() - 1), path, locales, canon_root, msgs) {
            Err(e) => Err(e),
            Ok(m) => ir_entry(last.0, last.1, path, locales, canon_root, m),
        }
    }
}

/// The node at `path` under `root`.
fn lookup<'a>(root: &'a Json, path: &Vec<String>) -> (r: Option<&'a Json>)
    ensures
        r matches Some(x) ==> lookup_spec(root@, views(path@)) == Some(x@),
        r is None ==> lookup_spec(root@, views(path@)) is None,
{
    let ghost pv = views(path@);
    let mut cur = root;
    let mut i: usize = 0;
    proof {
        assert(pv.skip(0) =~= pv);
    }
    while i < path.len()
        invariant
            i <= path@.len(),
            pv == views(path@),
            lookup_spec(root@, pv) == lookup_spec(cur@, pv.skip(i as int)),
        decreases path@.len() - i,
    {
        proof {
            assert(pv.skip(i as int)[0] == path@[i as int]@);
            assert(pv.skip(i as int).drop_first() =~= pv.skip(i + 1));
        }
        match cur.get(path[i].as_str()) {
            Some(next) => {
                cur = next;
            },
            None => {
                return None;
            },
        }
        i = i + 1;
    }
    proof {
        assert(pv.skip(i as int).len() == 0);
    }
    Some(cur)
}

pub open spec fn str_pairs_view(s: Seq<(String, String)>) -> Seq<(Seq<char>, Seq<char>)> {
    s.map_values(|p: (String, String)| (p.0@, p.1@))
}

proof fn lemma_str_pairs_map(s: Seq<(String, String)>)
    ensures
        str_pairs_view(s) == map_vals(kv_view(s), |x: String| x@),
{
    assert(str_pairs_view(s) =~= map_vals(kv_view(s), |x: String| x@));
}

/// The string forms of a `$plural` object, normalized (see `forms_spec`).
fn plural_forms(fs: &Vec<(String, Json)>) -> (r: Vec<(String, String)>)
    ensures
        str_pairs_view(r@) == forms_spec(view_fields(fs@)),
{
    let ghost vf = view_fields(fs@);
    proof {
        lemma_view_fields(fs@);
    }
    let mut out: Vec<(String, String)> = Vec::new();
    let mut i: usize = 0;
    proof {
        assert(str_pairs_view(out@) =~= forms_spec(vf.take(0)));
    }
    while i < fs.len()
        invariant
            i <= fs@.len(),
            vf == view_fields(fs@),
            vf.len() == fs@.len(),
            forall|j: int| 0 <= j < fs@.len() ==> #[trigger] vf[j] == (fs@[j].0@, json_view(fs@[j].1)),
            str_pairs_view(out@) == forms_spec(vf.take(i as int)),
        decreases fs@.len() - i,
    {
        proof {
            assert(vf.take(i + 1).drop_last() =~= vf.take(i as int));
            assert(vf.take(i + 1).last() == vf[i as int]);
        }
        match fs[i].1.as_str() {
            Some(t) => {
                let ghost before = out@;
                let k = copy_string(&fs[i].0);
                let n = normalize(t.as_str());
                let ghost kv = k@;
                let ghost nv = n;
                assoc_insert(&mut out, k, n);
                proof {
                    lemma_str_pairs_map(before);
                    lemma_str_pairs_map(out@);
                    lemma_map_vals_insert(kv_view(before), |x: String| x@, kv, nv);
                }
            },
            None => {},
        }
        i = i + 1;
    }
    proof {
        assert(vf.take(i as int) =~= vf);
    }
    out
}

/// A leaf as a message value (see `to_value_spec`).
fn to_message_value(val: &Json, plural: bool) -> (r: Option<MessageValue>)
    ensures
        r matches Some(v) ==> to_value_spec(val@, plural) == Some(value_view(v)),
        r is None ==> to_value_spec(val@, plural) is None,
{
    if plural {
        match val.get("$plural") {
            Some(pl) => match pl {
                Json::Object(fs) => {
                    let forms = plural_forms(fs);
                    Some(MessageValue::Plural(forms))
                },
                _ => None,
            },
            None => None,
        }
    } else {
        match val.as_str() {
            Some(s) => Some(MessageValue::Plain(normalize(s.as_str()))),
            None => None,
        }
    }
}

fn value_at_exec(root: &Json, path: &Vec<String>, plural: bool) -> (r: Option<MessageValue>)
    ensures
        r matches Some(v) ==> value_at(root@, views(path@), plural) == Some(value_view(v)),
        r is None ==> value_at(root@, views(path@), plural) is None,
{
    match lookup(root, path) {
        Some(v) => to_message_value(v, plural),
        None => None,
    }
}

proof fn lemma_values_map(s: Seq<(String, MessageValue)>)
    ensures
        values_view(s) == map_vals(kv_view(s), |v: MessageValue| value_view(v)),
{
    assert(values_view(s) =~= map_vals(kv_view(s), |v: MessageValue| value_view(v)));
}

/// Each locale's value for `path`; a missing translation falls back to the
/// canonical locale (see `collect_values_spec`).
fn collect_values(path: &Vec<String>, locales: &Vec<(String, Json)>, canon_root: &Json, plural: bool) -> (r: Vec<(String, MessageValue)>)
    ensures
        values_view(r@) == collect_values_spec(views(path@), view_fields(locales@), canon_root@, plural),
{
    let ghost lv = view_fields(locales@);
    proof {
        lemma_view_fields(locales@);
    }
    let mut out: Vec<(String, MessageValue)> = Vec::new();
    let mut i: usize = 0;
    proof {
        assert(values_view(out@) =~= collect_values_spec(views(path@), lv.take(0), canon_root@, plural));
    }
    while i < locales.len()
        invariant
            i <= locales@.len(),
            lv == view_fields(locales@),
            lv.len() == locales@.len(),
            forall|j: int| 0 <= j < locales@.len() ==> #[trigger] lv[j] == (locales@[j].0@, json_view(locales@[j].1)),
            values_view(out@) == collect_values_spec(views(path@), lv.take(i as int), canon_root@, plural),
        decreases locales@.len() - i,
    {
        proof {
            assert(lv.take(i + 1).drop_last() =~= lv.take(i as int));
            assert(lv.take(i + 1).last() == lv[i as int]);
        }
        let resolved = match value_at_exec(&locales[i].1, path, plural) {
            Some(v) => v,
            None => match value_at_exec(canon_root, path, plural) {
                Some(v) => v,
                None => {
                    let e = String::new();
                    proof {
                        assert(e@ =~= Seq::<char>::empty());
                    }
                    MessageValue::Plain(e)
                },
            },
        };
        let ghost before = out@;
        let ghost rv = resolved;
        let k = copy_string(&locales[i].0);
        let ghost kv = k@;
        assoc_insert(&mut out, k, resolved);
        proof {
            lemma_values_map(before);
            lemma_values_map(out@);
            lemma_map_vals_insert(kv_view(before), |v: MessageValue| value_view(v), kv, rv);
        }
        i = i + 1;
    }
    proof {
        assert(lv.take(i as int) =~= lv);
    }
    out
}

fn merge_params_exec(ps: &mut Vec<Param>, new: &Vec<Param>)
    ensures
        params_view(final(ps)@) == merge_params(params_view(old(ps)@), params_view(new@)),
{
    let ghost start = params_view(ps@);
    let ghost nv = params_view(new@);
    let mut i: usize = 0;
    proof {
        assert(nv.take(0) =~= Seq::<(Seq<char>, ParamType)>::empty());
    }
    while i < new.len()
        invariant
            i <= new@.len(),
            nv == params_view(new@),
            start == params_view(old(ps)@),
            params_view(ps@) == merge_params(start, nv.take(i as int)),
        decreases new@.len() - i,
    {
        proof {
            assert(nv.take(i + 1).drop_last() =~= nv.take(i as int));
            assert(nv.take(i + 1).last() == param_view(new@[i as int]));
        }
        let p = &new[i];
        if !str_eq(p.name.as_str(), "count") && !dedup_contains(ps, p.name.as_str()) {
            let ghost before = ps@;
            ps.push(Param { name: copy_string(&p.name), ty: p.ty });
            proof {
                assert(params_view(ps@) =~= params_view(before).push(param_view(new@[i as int])));
            }
        }
        i = i + 1;
    }
    proof {
        assert(nv.take(i as int) =~= nv);
    }
}

/// The parameters of a `$plural` value at dotted key `d` (see `plural_shape`).
fn plural_shape_exec(pl: &Json, d: &String) -> (r: Result<Vec<Param>, Error>)
    ensures
        match plural_shape(pl@, d@) {
            Ok(ps) => r matches Ok(v) && params_view(v@) == ps,
            Err(x) => r matches Err(e) && error_matches(e, x),
        },
{
    let forms = match pl {
        Json::Object(fs) => fs,
        _ => return Err(Error::PluralNotObject { key: copy_string(d) }),
    };
    let ghost vf = view_fields(forms@);
    proof {
        lemma_view_fields(forms@);
        lemma_fields_index(vf, "other"@);
    }
    if field_index(forms, "other").is_none() {
        return Err(Error::PluralMissingOther { key: copy_string(d) });
    }
    let mut params: Vec<Param> = Vec::new();
    params.push(Param { name: owned("count"), ty: ParamType::Number });
    let mut i: usize = 0;
    proof {
        assert(params_view(params@) =~= seq![("count"@, ParamType::Number)]);
        assert(vf.take(0) =~= Seq::<(Seq<char>, JsonV)>::empty());
    }
    while i < forms.len()
        invariant
            i <= forms@.len(),
            vf == view_fields(forms@),
            vf.len() == forms@.len(),
            forall|j: int| 0 <= j < forms@.len() ==> #[trigger] vf[j] == (forms@[j].0@, json_view(forms@[j].1)),
            plural_params(vf.take(i as int), d@) == Ok::<Seq<(Seq<char>, ParamType)>, IrErr>(params_view(params@)),
            pl@ == JsonV::Obj(vf),
            fields_get(vf, "other"@) is Some,
        decreases forms@.len() - i,
    {
        proof {
            assert(vf.take(i + 1).drop_last() =~= vf.take(i as int));
            assert(vf.take(i + 1).last() == vf[i as int]);
        }
        let cat = &forms[i].0;
        if !is_category_name(cat.as_str()) {
            proof {
                assert(plural_params(vf.take(i + 1), d@) == Err::<Seq<(Seq<char>, ParamType)>, IrErr>(IrErr::PluralUnknownCategory(d@, cat@)));
                lemma_plural_params_err(vf, d@, i as int);
            }
            return Err(Error::PluralUnknownCategory { key: copy_string(d), category: copy_string(cat) });
        }
        match forms[i].1.as_str() {
            Some(t) => {
                let ps = params_from(t.as_str());
                merge_params_exec(&mut params, &ps);
            },
            None => {
                proof {
                    assert(plural_params(vf.take(i + 1), d@) == Err::<Seq<(Seq<char>, ParamType)>, IrErr>(IrErr::PluralFormNotString(d@, cat@)));
                    lemma_plural_params_err(vf, d@, i as int);
                }
                return Err(Error::PluralFormNotString { key: copy_string(d), category: copy_string(cat) });
            },
        }
        i = i + 1;
    }
    proof {
        assert(vf.take(i as int) =~= vf);
    }
    Ok(params)
}

fn is_category_name(c: &str) -> (r: bool)
    ensures
        r == is_category(c@),
{
    str_eq(c, "zero") || str_eq(c, "one") || str_eq(c, "two") || str_eq(c, "few") || str_eq(c, "many")
        || str_eq(c, "other")
}

/// An error among the first `i + 1` forms is the error of all of them.
proof fn lemma_plural_params_err(forms: Seq<(Seq<char>, JsonV)>, d: Seq<char>, i: int)
    requires
        0 <= i < forms.len(),
        plural_params(forms.take(i + 1), d) is Err,
    ensures
        plural_params(forms, d) == plural_params(forms.take(i + 1), d),
    decreases forms.len() - i,
{
    if i + 1 < forms.len() {
        assert(forms.take(i + 2).drop_last() =~= forms.take(i + 1));
        assert(plural_params(forms.take(i + 2), d) == plural_params(forms.take(i + 1), d));
        lemma_plural_params_err(forms, d, i + 1);
    } else {
        assert(forms.take(i + 1) =~= forms);
    }
}

fn copy_strings(v: &Vec<String>) -> (r: Vec<String>)
    ensures
        views(r@) == views(v@),
{
    let mut out: Vec<String> = Vec::new();
    let mut i: usize = 0;
    while i < v.len()
        invariant
            i <= v@.len(),
            out@.len() == i,
            forall|j: int| 0 <= j < i ==> #[trigger] out@[j]@ == v@[j]@,
        decreases v@.len() - i,
    {
        out.push(copy_string(&v[i]));
        i = i + 1;
    }
    proof {
        assert(views(out@) =~= views(v@));
    }
    out
}

proof fn lemma_views_push(s: Seq<String>, x: String)
    ensures
        views(s.push(x)) == views(s).push(x@),
{
    assert(views(s.push(x)) =~= views(s).push(x@));
}

proof fn lemma_messages_push(s: Seq<Message>, m: Message)
    ensures
        messages_view(s.push(m)) == messages_view(s).push(m@),
{
    assert(messages_view(s.push(m)) =~= messages_view(s).push(m@));
}

/// The messages of the entry `k: v` under `path` (see `ir_entry`).
fn ir_entry_exec(
    k: &String,
    v: &Json,
    path: &mut Vec<String>,
    locales: &Vec<(String, Json)>,
    canon_root: &Json,
    msgs: &mut Vec<Message>,
) -> (r: Result<(), Error>)
    ensures
        match ir_entry(k@, v@, views(old(path)@), view_fields(locales@), canon_root@, messages_view(old(msgs)@)) {
            Ok(m) => r is Ok && messages_view(final(msgs)@) == m && final(path)@ == old(path)@,
            Err(x) => r matches Err(e) && error_matches(e, x),
        },
    decreases v,
{
    let ghost path0 = path@;
    let ghost m0 = messages_view(msgs@);
    path.push(copy_string(k));
    proof {
        lemma_views_push(path0, path@.last());
    }
    match v {
        Json::Str(text) => {
            let params = params_from(text.as_str());
            let values = collect_values(path, locales, canon_root, false);
            let m = Message { path: copy_strings(path), params, kind: Kind::Plain, values };
            let ghost mv = m@;
            msgs.push(m);
            proof {
                lemma_messages_push(old(msgs)@, m);
            }
        },
        Json::Object(fs) => {
            let ghost vf = view_fields(fs@);
            proof {
                lemma_view_fields(fs@);
                lemma_fields_index(vf, "$plural"@);
            }
            match field_index(fs, "$plural") {
                Some(i) => {
                    let d = join(path, ".");
                    let params = match plural_shape_exec(&fs[i].1, &d) {
                        Ok(ps) => ps,
                        Err(e) => return Err(e),
                    };
                    let values = collect_values(path, locales, canon_root, true);
                    let m = Message { path: copy_strings(path), params, kind: Kind::Plural, values };
                    msgs.push(m);
                    proof {
                        lemma_messages_push(old(msgs)@, m);
                    }
                },
                None => {
                    match ir_fields_exec(fs, path, locales, canon_root, msgs) {
                        Ok(()) => {},
                        Err(e) => return Err(e),
                    }
                },
            }
        },
        _ => {},
    }
    path.pop();
    proof {
        assert(path@ =~= path0);
    }
    Ok(())
}

/// An error at the entry `i` is the error of the whole object.
proof fn lemma_ir_fields_err(
    fs: Seq<(Seq<char>, JsonV)>,
    path: Seq<Seq<char>>,
    locales: Seq<(Seq<char>, JsonV)>,
    canon_root: JsonV,
    msgs: Seq<MsgV>,
    i: int,
)
    requires
        0 <= i < fs.len(),
        ir_fields(fs.subrange(0, i + 1), path, locales, canon_root, msgs) is Err,
    ensures
        ir_fields(fs, path, locales, canon_root, msgs) == ir_fields(fs.subrange(0, i + 1), path, locales, canon_root, msgs),
    decreases fs.len() - i,
{
    if i + 1 < fs.len() {
        let t = fs.subrange(0, i + 2);
        assert(t.subrange(0, t.len() - 1) =~= fs.subrange(0, i + 1));
        assert(ir_fields(t, path, locales, canon_root, msgs) == ir_fields(fs.subrange(0, i + 1), path, locales, canon_root, msgs));
        lemma_ir_fields_err(fs, path, locales, canon_root, msgs, i + 1);
    } else {
        assert(fs.subrange(0, i + 1) =~= fs);
    }
}

/// The messages of every entry of an object under `path` (see `ir_fields`).
fn ir_fields_exec(
    fs: &Vec<(String, Json)>,
    path: &mut Vec<String>,
    locales: &Vec<(String, Json)>,
    canon_root: &Json,
    msgs: &mut Vec<Message>,
) -> (r: Result<(), Error>)
    ensures
        match ir_fields(view_fields(fs@), views(old(path)@), view_fields(locales@), canon_root@, messages_view(old(msgs)@)) {
            Ok(m) => r is Ok && messages_view(final(msgs)@) == m && final(path)@ == old(path)@,
            Err(x) => r matches Err(e) && error_matches(e, x),
        },
    decreases fs,
{
    let ghost vf = view_fields(fs@);
    let ghost pv = views(path@);
    let ghost lv = view_fields(locales@);
    let ghost m0 = messages_view(msgs@);
    proof {
        lemma_view_fields(fs@);
        assert(vf.subrange(0, 0) =~= Seq::<(Seq<char>, JsonV)>::empty());
    }
    let mut i: usize = 0;
    while i < fs.len()
        invariant
            i <= fs@.len(),
            vf == view_fields(fs@),
            vf.len() == fs@.len(),
            forall|j: int| 0 <= j < fs@.len() ==> #[trigger] vf[j] == (fs@[j].0@, json_view(fs@[j].1)),
            path@ == old(path)@,
            pv == views(old(path)@),
            lv == view_fields(locales@),
            m0 == messages_view(old(msgs)@),
            ir_fields(vf.subrange(0, i as int), pv, lv, canon_root@, m0) == Ok::<Seq<MsgV>, IrErr>(messages_view(msgs@)),
        decreases fs@.len() - i,
    {
        proof {
            assert(vf.subrange(0, i + 1).subrange(0, i as int) =~= vf.subrange(0, i as int));
            assert(vf.subrange(0, i + 1)[i as int] == vf[i as int]);
            assert(decreases_to!(fs => fs[i as int]));
        }
        match ir_entry_exec(&fs[i].0, &fs[i].1, path, locales, canon_root, msgs) {
            Ok(()) => {},
            Err(e) => {
                proof {
                    lemma_ir_fields_err(vf, pv, lv, canon_root@, m0, i as int);
                }
                return Err(e);
            },
        }
        i = i + 1;
    }
    proof {
        assert(vf.subrange(0, i as int) =~= vf);
    }
    Ok(())
}

/// The locale keys inserted, in order, into an ascending map.
pub open spec fn insert_keys(lv: Seq<(Seq<char>, JsonV)>) -> Seq<(Seq<char>, ())>
    decreases lv.len(),
{
    if lv.len() == 0 {
        Seq::empty()
    } else {
        fields_insert(insert_keys(lv.drop_last()), lv.last().0, ())
    }
}

/// `ir` is the IR of a catalog whose canonical locale yields the messages `m`.
pub open spec fn ir_ok(ir: Ir, canonical: Seq<char>, lv: Seq<(Seq<char>, JsonV)>, m: Seq<MsgV>) -> bool {
    &&& ir.canonical@ == canonical
    &&& views(ir.locales@) == lv.map_values(|p: (Seq<char>, JsonV)| p.0)
    &&& messages_view(ir.messages@) == m
    &&& map_vals(kv_view(ir.plural_rules@), |t: PluralTable| ()) == insert_keys(lv)
    &&& forall|i: int| 0 <= i < ir.plural_rules@.len() ==> #[trigger] plural_table_ok(ir.plural_rules@[i].0@, ir.plural_rules@[i].1)
}

/// `e` is the plural-table error of the first locale (in order) whose table fails.
pub open spec fn first_table_error(e: Error, lv: Seq<(Seq<char>, JsonV)>) -> bool {
    exists|i: int| 0 <= i < lv.len() && plural_table_fails(#[trigger] lv[i].0) && plural_error_for(e, lv[i].0)
        && forall|j: int| 0 <= j < i ==> !plural_table_fails(#[trigger] lv[j].0)
}

/// Every message of an entry, and of those before it, has a non-empty path.
proof fn lemma_entry_paths(
    k: Seq<char>,
    v: JsonV,
    path: Seq<Seq<char>>,
    locales: Seq<(Seq<char>, JsonV)>,
    canon_root: JsonV,
    msgs: Seq<MsgV>,
)
    requires
        forall|i: int| 0 <= i < msgs.len() ==> #[trigger] msgs[i].path.len() > 0,
    ensures
        ir_entry(k, v, path, locales, canon_root, msgs) matches Ok(m) ==> forall|i: int|
            0 <= i < m.len() ==> #[trigger] m[i].path.len() > 0,
    decreases v, 1int,
{
    if let JsonV::Obj(fs) = v {
        if fields_get(fs, "$plural"@) is None {
            lemma_fields_paths(fs, path.push(k), locales, canon_root, msgs);
        }
    }
}

/// Every message of an object's entries, and of those before them, has a
/// non-empty path.
proof fn lemma_fields_paths(
    fs: Seq<(Seq<char>, JsonV)>,
    path: Seq<Seq<char>>,
    locales: Seq<(Seq<char>, JsonV)>,
    canon_root: JsonV,
    msgs: Seq<MsgV>,
)
    requires
        forall|i: int| 0 <= i < msgs.len() ==> #[trigger] msgs[i].path.len() > 0,
    ensures
        ir_fields(fs, path, locales, canon_root, msgs) matches Ok(m) ==> forall|i: int|
            0 <= i < m.len() ==> #[trigger] m[i].path.len() > 0,
    decreases fs, 0int,
{
    if fs.len() > 0 {
        let init = fs.subrange(0, fs.len() - 1);
        let last = fs[fs.len() - 1];
        assert(decreases_to!(fs => fs[fs.len() - 1]));
        lemma_fields_paths(init, path, locales, canon_root, msgs);
        if let Ok(m) = ir_fields(init, path, locales, canon_root, msgs) {
            lemma_entry_paths(last.0, last.1, path, locales, canon_root, m);
        }
    }
}

/// The keys inserted one by one are all present, in ascending order.
proof fn lemma_insert_keys(lv: Seq<(Seq<char>, JsonV)>)
    ensures
        keys_sorted(insert_keys(lv)),
        forall|i: int| 0 <= i < lv.len() ==> #[trigger] fields_get(insert_keys(lv), lv[i].0) is Some,
    decreases lv.len(),
{
    if lv.len() > 0 {
        let init = lv.drop_last();
        lemma_insert_keys(init);
        lemma_fields_insert(insert_keys(init), lv.last().0, ());
        let ks = insert_keys(init);
        assert(insert_keys(lv) == fields_insert(ks, lv.last().0, ()));
        assert forall|i: int| 0 <= i < lv.len() implies #[trigger] fields_get(insert_keys(lv), lv[i].0) is Some by {
            if i < lv.len() - 1 && lv[i].0 != lv.last().0 {
                assert(lv[i] == init[i]);
                assert(fields_get(ks, init[i].0) is Some);
                assert(fields_get(fields_insert(ks, lv.last().0, ()), lv[i].0) == fields_get(ks, lv[i].0));
            }
        }
    }
}

/// Every locale has a value for message `m`.
pub open spec fn values_complete(m: MsgV, lv: Seq<(Seq<char>, JsonV)>) -> bool {
    forall|j: int| 0 <= j < lv.len() ==> #[trigger] fields_get(m.values, lv[j].0) is Some
}

/// Every message of `ir` has a value for every locale of `ir`: a missing
/// translation was filled in, never left out.
pub open spec fn ir_complete(ir: &Ir) -> bool {
    forall|i: int, j: int|
        0 <= i < ir.messages@.len() && 0 <= j < ir.locales@.len() ==> #[trigger] fields_get(
            values_view(ir.messages@[i].values@),
            #[trigger] ir.locales@[j]@,
        ) is Some
}

/// The values collected for a path have a key for every locale.
proof fn lemma_collect_keys(path: Seq<Seq<char>>, lv: Seq<(Seq<char>, JsonV)>, root: JsonV, plural: bool)
    ensures
        keys_sorted(collect_values_spec(path, lv, root, plural)),
        forall|j: int| 0 <= j < lv.len() ==> #[trigger] fields_get(collect_values_spec(path, lv, root, plural), lv[j].0) is Some,
    decreases lv.len(),
{
    if lv.len() > 0 {
        let init = lv.drop_last();
        lemma_collect_keys(path, init, root, plural);
        let prev = collect_values_spec(path, init, root, plural);
        let v = resolved_value(lv.last().1, root, path, plural);
        lemma_fields_insert(prev, lv.last().0, v);
        assert forall|j: int| 0 <= j < lv.len() implies #[trigger] fields_get(collect_values_spec(path, lv, root, plural), lv[j].0) is Some by {
            if j < lv.len() - 1 && lv[j].0 != lv.last().0 {
                assert(lv[j] == init[j]);
                assert(fields_get(prev, init[j].0) is Some);
                assert(fields_get(fields_insert(prev, lv.last().0, v), lv[j].0) == fields_get(prev, lv[j].0));
            }
        }
    }
}

/// Every message of an entry, and of those before it, has a value for every locale.
proof fn lemma_entry_complete(
    k: Seq<char>,
    v: JsonV,
    path: Seq<Seq<char>>,
    locales: Seq<(Seq<char>, JsonV)>,
    canon_root: JsonV,
    msgs: Seq<MsgV>,
)
    requires
        forall|i: int| 0 <= i < msgs.len() ==> values_complete(#[trigger] msgs[i], locales),
    ensures
        ir_entry(k, v, path, locales, canon_root, msgs) matches Ok(m) ==> forall|i: int|
            0 <= i < m.len() ==> values_complete(#[trigger] m[i], locales),
    decreases v, 1int,
{
    let p = path.push(k);
    lemma_collect_keys(p, locales, canon_root, false);
    lemma_collect_keys(p, locales, canon_root, true);
    if let JsonV::Obj(fs) = v {
        if fields_get(fs, "$plural"@) is None {
            lemma_fields_complete(fs, p, locales, canon_root, msgs);
        }
    }
}

/// Every message of an object's entries, and of those before them, has a value
/// for every locale.
proof fn lemma_fields_complete(
    fs: Seq<(Seq<char>, JsonV)>,
    path: Seq<Seq<char>>,
    locales: Seq<(Seq<char>, JsonV)>,
    canon_root: JsonV,
    msgs: Seq<MsgV>,
)
    requires
        forall|i: int| 0 <= i < msgs.len() ==> values_complete(#[trigger] msgs[i], locales),
    ensures
        ir_fields(fs, path, locales, canon_root, msgs) matches Ok(m) ==> forall|i: int|
            0 <= i < m.len() ==> values_complete(#[trigger] m[i], locales),
    decreases fs, 0int,
{
    if fs.len() > 0 {
        let init = fs.subrange(0, fs.len() - 1);
        let last = fs[fs.len() - 1];
        assert(decreases_to!(fs => fs[fs.len() - 1]));
        lemma_fields_complete(init, path, locales, canon_root, msgs);
        if let Ok(m) = ir_fields(init, path, locales, canon_root, msgs) {
            lemma_entry_complete(last.0, last.1, path, locales, canon_root, m);
        }
    }
}

/// An IR built from a catalog has a value for every message in every locale.
proof fn lemma_ir_ok_complete(ir: Ir, canonical: Seq<char>, lv: Seq<(Seq<char>, JsonV)>, fs: Seq<(Seq<char>, JsonV)>, root: JsonV)
    requires
        ir_fields(fs, Seq::empty(), lv, root, Seq::empty()) is Ok,
        ir_ok(ir, canonical, lv, ir_fields(fs, Seq::empty(), lv, root, Seq::empty())->Ok_0),
    ensures
        ir_complete(&ir),
{
    let m = ir_fields(fs, Seq::empty(), lv, root, Seq::empty())->Ok_0;
    lemma_fields_complete(fs, Seq::empty(), lv, root, Seq::empty());
    assert forall|i: int, j: int| 0 <= i < ir.messages@.len() && 0 <= j < ir.locales@.len() implies #[trigger] fields_get(
        values_view(ir.messages@[i].values@),
        #[trigger] ir.locales@[j]@,
    ) is Some by {
        assert(messages_view(ir.messages@)[i] == m[i]);
        assert(m[i].values == values_view(ir.messages@[i].values@));
        assert(values_complete(m[i], lv));
        assert(views(ir.locales@).len() == ir.locales@.len());
        assert(views(ir.locales@)[j] == lv.map_values(|p: (Seq<char>, JsonV)| p.0)[j]);
        assert(fields_get(m[i].values, lv[j].0) is Some);
    }
}

/// An IR built from a catalog meets what every emitter needs: each message has
/// a path and each locale a plural table.
proof fn lemma_ir_ok_emittable(ir: Ir, canonical: Seq<char>, lv: Seq<(Seq<char>, JsonV)>, fs: Seq<(Seq<char>, JsonV)>, root: JsonV)
    requires
        ir_fields(fs, Seq::empty(), lv, root, Seq::empty()) is Ok,
        ir_ok(ir, canonical, lv, ir_fields(fs, Seq::empty(), lv, root, Seq::empty())->Ok_0),
    ensures
        emittable(&ir),
{
    let m = ir_fields(fs, Seq::empty(), lv, root, Seq::empty())->Ok_0;
    lemma_fields_paths(fs, Seq::empty(), lv, root, Seq::empty());
    assert forall|i: int| 0 <= i < ir.messages@.len() implies #[trigger] ir.messages@[i].path@.len() > 0 by {
        assert(messages_view(ir.messages@)[i] == m[i]);
        assert(m[i].path == views(ir.messages@[i].path@));
    }
    lemma_insert_keys(lv);
    let pr = map_vals(kv_view(ir.plural_rules@), |t: PluralTable| ());
    assert forall|i: int| 0 <= i < ir.locales@.len() implies #[trigger] has_table(&ir, ir.locales@[i]@) by {
        assert(views(ir.locales@).len() == ir.locales@.len());
        assert(lv.map_values(|p: (Seq<char>, JsonV)| p.0).len() == lv.len());
        assert(views(ir.locales@)[i] == lv.map_values(|p: (Seq<char>, JsonV)| p.0)[i]);
        let k = lv[i].0;
        assert(fields_get(insert_keys(lv), k) is Some);
        assert(fields_get(pr, k) is Some);
        lemma_fields_index(pr, k);
        let j = fields_index(pr, k)->Some_0;
        assert(pr[j].0 == ir.plural_rules@[j].0@);
    }
}

/// Builds the IR from the catalog `locales` (locale → tree): one message per leaf
/// of the canonical tree (a string, or a `{ "$plural": ... }` object), with each
/// locale's normalized text (a missing translation falls back to the canonical
/// one), and a baked plural table per locale. The IR it returns has a value for
/// every message in every locale, and meets what every emitter needs.
pub fn build_ir(canonical: &str, locales: &Vec<(String, Json)>) -> (r: Result<Ir, Error>)
    requires
        catalog_wf(view_fields(locales@)),
    ensures
        fields_get(view_fields(locales@), canonical@) is None ==> (r matches Err(Error::CanonicalNotFound { locale }) && locale@ == canonical@),
        fields_get(view_fields(locales@), canonical@) matches Some(root) ==> {
            &&& !(root is Obj) ==> (r matches Err(Error::ExpectedObject { path }) && path@ == Seq::<char>::empty())
            &&& root matches JsonV::Obj(fs) ==> match ir_fields(fs, Seq::empty(), view_fields(locales@), root, Seq::empty()) {
                Err(x) => r matches Err(e) && error_matches(e, x),
                Ok(m) => {
                    &&& (r is Ok <==> !some_table_fails(view_fields(locales@)))
                    &&& r matches Ok(ir) ==> ir_ok(ir, canonical@, view_fields(locales@), m) && emittable(&ir) && ir_complete(&ir)
                    &&& r matches Err(e) ==> first_table_error(e, view_fields(locales@))
                },
            }
        },
{
    let ghost lv = view_fields(locales@);
    proof {
        lemma_view_fields(locales@);
        lemma_fields_index(lv, canonical@);
    }
    let ci = match field_index(locales, canonical) {
        Some(i) => i,
        None => return Err(Error::CanonicalNotFound { locale: owned(canonical) }),
    };
    let canon_root = &locales[ci].1;
    let fs = match canon_root {
        Json::Object(fs) => fs,
        _ => {
            let p = String::new();
            proof {
                assert(p@ =~= Seq::<char>::empty());
            }
            return Err(Error::ExpectedObject { path: p });
        },
    };
    let mut messages: Vec<Message> = Vec::new();
    let mut path: Vec<String> = Vec::new();
    proof {
        assert(messages_view(messages@) =~= Seq::<MsgV>::empty());
        assert(views(path@) =~= Seq::<Seq<char>>::empty());
    }
    match ir_fields_exec(fs, &mut path, locales, canon_root, &mut messages) {
        Ok(()) => {},
        Err(e) => return Err(e),
    }
    let mut rules: Vec<(String, PluralTable)> = Vec::new();
    let mut keys: Vec<String> = Vec::new();
    let mut i: usize = 0;
    proof {
        assert(map_vals(kv_view(rules@), |t: PluralTable| ()) =~= insert_keys(lv.take(0)));
        assert(views(keys@) =~= lv.take(0).map_values(|p: (Seq<char>, JsonV)| p.0));
    }
    while i < locales.len()
        invariant
            i <= locales@.len(),
            lv == view_fields(locales@),
            lv.len() == locales@.len(),
            forall|j: int| 0 <= j < locales@.len() ==> #[trigger] lv[j] == (locales@[j].0@, json_view(locales@[j].1)),
            map_vals(kv_view(rules@), |t: PluralTable| ()) == insert_keys(lv.take(i as int)),
            forall|j: int| 0 <= j < rules@.len() ==> #[trigger] plural_table_ok(rules@[j].0@, rules@[j].1),
            views(keys@) == lv.take(i as int).map_values(|p: (Seq<char>, JsonV)| p.0),
            forall|j: int| 0 <= j < i ==> !plural_table_fails(#[trigger] lv[j].0),
            fields_get(lv, canonical@) == Some(canon_root@),
            canon_root@ == JsonV::Obj(view_fields(fs@)),
            ir_fields(view_fields(fs@), Seq::empty(), lv, canon_root@, Seq::empty()) == Ok::<Seq<MsgV>, IrErr>(messages_view(messages@)),
        decreases locales@.len() - i,
    {
        proof {
            assert(lv.take(i + 1).drop_last() =~= lv.take(i as int));
            assert(lv.take(i + 1).last() == lv[i as int]);
        }
        let table = match build_plural_table(locales[i].0.as_str()) {
            Ok(t) => t,
            Err(e) => {
                proof {
                    assert(plural_table_fails(lv[i as int].0));
                    assert(first_table_error(e, lv));
                }
                return Err(e);
            },
        };
        let ghost before = rules@;
        let k = copy_string(&locales[i].0);
        let ghost kv = k@;
        let ghost tv = table;
        assoc_insert(&mut rules, k, table);
        proof {
            lemma_map_vals_insert(kv_view(before), |t: PluralTable| (), kv, tv);
            lemma_fields_insert_entries(kv_view(before), kv, tv);
            assert forall|j: int| 0 <= j < rules@.len() implies #[trigger] plural_table_ok(rules@[j].0@, rules@[j].1) by {
                assert(kv_view(rules@)[j] == (rules@[j].0@, rules@[j].1));
            }
        }
        let ghost kb = keys@;
        keys.push(copy_string(&locales[i].0));
        proof {
            assert(views(keys@) =~= views(kb).push(lv[i as int].0));
            assert(lv.take(i + 1).map_values(|p: (Seq<char>, JsonV)| p.0) =~= lv.take(i as int).map_values(|p: (Seq<char>, JsonV)| p.0).push(lv[i as int].0));
        }
        i = i + 1;
    }
    proof {
        assert(lv.take(i as int) =~= lv);
        assert forall|j: int| 0 <= j < lv.len() implies !plural_table_fails(#[trigger] lv[j].0) by {}
    }
    let ir = Ir { canonical: owned(canonical), locales: keys, messages, plural_rules: rules };
    proof {
        lemma_ir_ok_emittable(ir, canonical@, lv, view_fields(fs@), canon_root@);
        lemma_ir_ok_complete(ir, canonical@, lv, view_fields(fs@), canon_root@);
    }
    Ok(ir)
}

/// Every entry of a map after an insert is an old entry or the new one.
pub(crate) proof fn lemma_fields_insert_entries<V>(s: Seq<(Seq<char>, V)>, k: Seq<char>, v: V)
    ensures
        forall|j: int| 0 <= j < fields_insert(s, k, v).len() ==> #[trigger] fields_insert(s, k, v)[j] == (k, v) || s.contains(fields_insert(s, k, v)[j]),
{
    lemma_fields_index(s, k);
    let r = fields_insert(s, k, v);
    assert forall|j: int| 0 <= j < r.len() implies #[trigger] r[j] == (k, v) || s.contains(r[j]) by {
        match fields_index(s, k) {
            Some(i) => {
                if j != i {
                    assert(r[j] == s[j]);
                }
            },
            None => {
                let p = crate::json::insert_pos(s, k);
                crate::json::lemma_insert_pos(s, k);
                if j < p {
                    assert(r[j] == s[j]);
                } else if j > p {
                    assert(r[j] == s[j - 1]);
                }
            },
        }
    }
}

/// The dotted keys of every leaf (string or `$plural`) of an object's entries
/// under `prefix`, in order.
pub open spec fn paths_fields(fs: Seq<(Seq<char>, JsonV)>, prefix: Seq<Seq<char>>) -> Seq<Seq<char>>
    decreases fs,
{
    if fs.len() == 0 {
        Seq::empty()
    } else {
        let last = fs[fs.len() - 1];
        paths_fields(fs.subrange(0, fs.len() - 1), prefix) + paths_entry(last.0, last.1, prefix)
    }
}

pub open spec fn paths_entry(k: Seq<char>, v: JsonV, prefix: Seq<Seq<char>>) -> Seq<Seq<char>>
    decreases v,
{
    let p = prefix.push(k);
    match v {
        JsonV::Str(_) => seq![seq_join(p, "."@)],
        JsonV::Obj(fs) => if fields_get(fs, "$plural"@) is Some {
            seq![seq_join(p, "."@)]
        } else {
            paths_fields(fs, p)
        },
        _ => Seq::empty(),
    }
}

/// The dotted keys of every leaf of a locale tree.
pub open spec fn collect_paths_spec(root: JsonV) -> Seq<Seq<char>> {
    match root {
        JsonV::Obj(fs) => paths_fields(fs, Seq::empty()),
        _ => Seq::empty(),
    }
}

fn paths_entry_exec(k: &String, v: &Json, prefix: &mut Vec<String>, out: &mut Vec<String>)
    ensures
        final(prefix)@ == old(prefix)@,
        views(final(out)@) == views(old(out)@) + paths_entry(k@, v@, views(old(prefix)@)),
    decreases v,
{
    let ghost p0 = prefix@;
    let ghost o0 = views(out@);
    prefix.push(copy_string(k));
    proof {
        lemma_views_push(p0, prefix@.last());
    }
    match v {
        Json::Str(_) => {
            let d = join(prefix, ".");
            let ghost ob = out@;
            out.push(d);
            proof {
                lemma_views_push(ob, d);
                assert(views(out@) =~= o0 + paths_entry(k@, v@, views(p0)));
            }
        },
        Json::Object(fs) => {
            let ghost vf = view_fields(fs@);
            proof {
                lemma_view_fields(fs@);
                lemma_fields_index(vf, "$plural"@);
            }
            if field_index(fs, "$plural").is_some() {
                let d = join(prefix, ".");
                let ghost ob = out@;
                out.push(d);
                proof {
                    lemma_views_push(ob, d);
                    assert(views(out@) =~= o0 + paths_entry(k@, v@, views(p0)));
                }
            } else {
                paths_fields_exec(fs, prefix, out);
            }
        },
        _ => {
            proof {
                assert(views(out@) =~= o0 + paths_entry(k@, v@, views(p0)));
            }
        },
    }
    prefix.pop();
    proof {
        assert(prefix@ =~= p0);
    }
}

fn paths_fields_exec(fs: &Vec<(String, Json)>, prefix: &mut Vec<String>, out: &mut Vec<String>)
    ensures
        final(prefix)@ == old(prefix)@,
        views(final(out)@) == views(old(out)@) + paths_fields(view_fields(fs@), views(old(prefix)@)),
    decreases fs,
{
    let ghost vf = view_fields(fs@);
    let ghost pv = views(prefix@);
    let ghost o0 = views(out@);
    proof {
        lemma_view_fields(fs@);
        assert(o0 + paths_fields(vf.subrange(0, 0), pv) =~= o0);
    }
    let mut i: usize = 0;
    while i < fs.len()
        invariant
            i <= fs@.len(),
            vf == view_fields(fs@),
            vf.len() == fs@.len(),
            forall|j: int| 0 <= j < fs@.len() ==> #[trigger] vf[j] == (fs@[j].0@, json_view(fs@[j].1)),
            prefix@ == old(prefix)@,
            pv == views(old(prefix)@),
            o0 == views(old(out)@),
            views(out@) == o0 + paths_fields(vf.subrange(0, i as int), pv),
        decreases fs@.len() - i,
    {
        proof {
            assert(vf.subrange(0, i + 1).subrange(0, i as int) =~= vf.subrange(0, i as int));
            assert(vf.subrange(0, i + 1)[i as int] == vf[i as int]);
            assert(decreases_to!(fs => fs[i as int]));
        }
        paths_entry_exec(&fs[i].0, &fs[i].1, prefix, out);
        proof {
            assert(views(out@) =~= o0 + paths_fields(vf.subrange(0, i + 1), pv));
        }
        i = i + 1;
    }
    proof {
        assert(vf.subrange(0, i as int) =~= vf);
    }
}

/// The dotted keys of every leaf (string or `$plural`) of a locale tree.
fn collect_paths(root: &Json) -> (r: Vec<String>)
    ensures
        views(r@) == collect_paths_spec(root@),
{
    let mut out: Vec<String> = Vec::new();
    let mut prefix: Vec<String> = Vec::new();
    proof {
        assert(views(out@) =~= Seq::<Seq<char>>::empty());
        assert(views(prefix@) =~= Seq::<Seq<char>>::empty());
    }
    match root {
        Json::Object(fs) => {
            paths_fields_exec(fs, &mut prefix, &mut out);
            proof {
                assert(views(out@) =~= collect_paths_spec(root@));
            }
        },
        _ => {},
    }
    out
}

/// The warning for a locale falling back to the canonical text.
pub open spec fn fallback_warning(loc: Seq<char>, key: Seq<char>, canonical: Seq<char>) -> Seq<char> {
    "warning: locale '"@ + loc + "' missing key '"@ + key + "' \u{2014} falling back to '"@ + canonical + "'"@
}

/// One warning per non-canonical locale without its own value for message `m`.
pub open spec fn fallback_for(canonical: Seq<char>, lv: Seq<(Seq<char>, JsonV)>, m: MsgV) -> Seq<Seq<char>>
    decreases lv.len(),
{
    if lv.len() == 0 {
        Seq::empty()
    } else {
        fallback_for(canonical, lv.drop_last(), m) + if lv.last().0 != canonical && value_at(
            lv.last().1,
            m.path,
            m.kind == Kind::Plural,
        ) is None {
            seq![fallback_warning(lv.last().0, seq_join(m.path, "."@), canonical)]
        } else {
            Seq::empty()
        }
    }
}

pub open spec fn fallback_warnings(canonical: Seq<char>, lv: Seq<(Seq<char>, JsonV)>, msgs: Seq<MsgV>) -> Seq<Seq<char>>
    decreases msgs.len(),
{
    if msgs.len() == 0 {
        Seq::empty()
    } else {
        fallback_warnings(canonical, lv, msgs.drop_last()) + fallback_for(canonical, lv, msgs.last())
    }
}

/// The categories a plural table's integer lookups can produce, ascending.
pub open spec fn table_reach(t: PluralTable) -> Seq<Seq<char>> {
    set_extend(set_extend(Seq::empty(), views(t.small@)), views(t.modulo@))
}

/// One warning per category a locale's rules produce that its plural forms lack.
pub open spec fn missing_form_warnings(key: Seq<char>, loc: Seq<char>, forms: Seq<(Seq<char>, Seq<char>)>, reach: Seq<Seq<char>>) -> Seq<Seq<char>>
    decreases reach.len(),
{
    if reach.len() == 0 {
        Seq::empty()
    } else {
        missing_form_warnings(key, loc, forms, reach.drop_last()) + if fields_get(forms, reach.last()) is None {
            seq!["warning: '"@ + key + "' ["@ + loc + "] is missing the '"@ + reach.last() + "' plural form this locale needs"@]
        } else {
            Seq::empty()
        }
    }
}

pub open spec fn tables_view(rules: Seq<(String, PluralTable)>) -> Seq<(Seq<char>, PluralTable)> {
    kv_view(rules)
}

pub open spec fn plural_value_warnings(key: Seq<char>, values: Seq<(Seq<char>, ValV)>, rules: Seq<(Seq<char>, PluralTable)>) -> Seq<Seq<char>>
    decreases values.len(),
{
    if values.len() == 0 {
        Seq::empty()
    } else {
        plural_value_warnings(key, values.drop_last(), rules) + match values.last().1 {
            ValV::Plural(forms) => match fields_get(rules, values.last().0) {
                Some(t) => missing_form_warnings(key, values.last().0, forms, table_reach(t)),
                None => Seq::empty(),
            },
            _ => Seq::empty(),
        }
    }
}

pub open spec fn plural_warnings(msgs: Seq<MsgV>, rules: Seq<(Seq<char>, PluralTable)>) -> Seq<Seq<char>>
    decreases msgs.len(),
{
    if msgs.len() == 0 {
        Seq::empty()
    } else {
        plural_warnings(msgs.drop_last(), rules) + if msgs.last().kind == Kind::Plural {
            plural_value_warnings(seq_join(msgs.last().path, "."@), msgs.last().values, rules)
        } else {
            Seq::empty()
        }
    }
}

pub open spec fn stale_for(loc: Seq<char>, paths: Seq<Seq<char>>, known: Seq<Seq<char>>, canonical: Seq<char>) -> Seq<Seq<char>>
    decreases paths.len(),
{
    if paths.len() == 0 {
        Seq::empty()
    } else {
        stale_for(loc, paths.drop_last(), known, canonical) + if known.contains(paths.last()) {
            Seq::empty()
        } else {
            seq!["warning: key '"@ + paths.last() + "' exists in locale '"@ + loc + "' but not in canonical '"@ + canonical + "' \u{2014} it will be ignored"@]
        }
    }
}

pub open spec fn stale_warnings(canonical: Seq<char>, lv: Seq<(Seq<char>, JsonV)>, known: Seq<Seq<char>>) -> Seq<Seq<char>>
    decreases lv.len(),
{
    if lv.len() == 0 {
        Seq::empty()
    } else {
        stale_warnings(canonical, lv.drop_last(), known) + if lv.last().0 == canonical {
            Seq::empty()
        } else {
            stale_for(lv.last().0, collect_paths_spec(lv.last().1), known, canonical)
        }
    }
}

/// The warnings of building `ir` from `locales`: fallbacks to the canonical
/// text, plural forms a locale's rules need but its text lacks, and keys that
/// exist only outside the canonical locale (they are ignored).
pub open spec fn ir_warnings_spec(canonical: Seq<char>, lv: Seq<(Seq<char>, JsonV)>, ir: Ir) -> Seq<Seq<char>> {
    let msgs = messages_view(ir.messages@);
    fallback_warnings(canonical, lv, msgs) + plural_warnings(msgs, tables_view(ir.plural_rules@))
        + stale_warnings(canonical, lv, msgs.map_values(|m: MsgV| seq_join(m.path, "."@)))
}

fn push_string(out: &mut Vec<String>, w: String)
    ensures
        views(final(out)@) == views(old(out)@).push(w@),
{
    let ghost ob = out@;
    out.push(w);
    proof {
        lemma_views_push(ob, w);
    }
}

fn table_reach_exec(t: &PluralTable) -> (r: Vec<String>)
    ensures
        views(r@) == table_reach(*t),
{
    let mut reach: Vec<String> = Vec::new();
    proof {
        assert(views(reach@) =~= Seq::<Seq<char>>::empty());
    }
    set_add_all(&mut reach, &t.small);
    set_add_all(&mut reach, &t.modulo);
    reach
}

/// The warnings of building `ir` from `locales` (see `ir_warnings_spec`).
pub fn ir_warnings(canonical: &str, locales: &Vec<(String, Json)>, ir: &Ir) -> (r: Vec<String>)
    requires
        catalog_wf(view_fields(locales@)),
    ensures
        views(r@) == ir_warnings_spec(canonical@, view_fields(locales@), *ir),
{
    let ghost lv = view_fields(locales@);
    let ghost msgs = messages_view(ir.messages@);
    proof {
        lemma_view_fields(locales@);
    }
    let mut out: Vec<String> = Vec::new();
    proof {
        assert(views(out@) =~= fallback_warnings(canonical@, lv, msgs.take(0)));
    }
    let mut i: usize = 0;
    while i < ir.messages.len()
        invariant
            i <= ir.messages@.len(),
            lv == view_fields(locales@),
            lv.len() == locales@.len(),
            forall|j: int| 0 <= j < locales@.len() ==> #[trigger] lv[j] == (locales@[j].0@, json_view(locales@[j].1)),
            msgs == messages_view(ir.messages@),
            views(out@) == fallback_warnings(canonical@, lv, msgs.take(i as int)),
        decreases ir.messages@.len() - i,
    {
        proof {
            assert(msgs.take(i + 1).drop_last() =~= msgs.take(i as int));
            assert(msgs.take(i + 1).last() == ir.messages@[i as int]@);
        }
        let m = &ir.messages[i];
        let key = m.dotted();
        let plural = m.kind == Kind::Plural;
        let ghost w0 = views(out@);
        let mut j: usize = 0;
        proof {
            assert(views(out@) =~= w0 + fallback_for(canonical@, lv.take(0), m@));
        }
        while j < locales.len()
            invariant
                j <= locales@.len(),
                lv == view_fields(locales@),
                lv.len() == locales@.len(),
                forall|q: int| 0 <= q < locales@.len() ==> #[trigger] lv[q] == (locales@[q].0@, json_view(locales@[q].1)),
                key@ == seq_join(m@.path, "."@),
                plural == (m@.kind == Kind::Plural),
                views(out@) == w0 + fallback_for(canonical@, lv.take(j as int), m@),
            decreases locales@.len() - j,
        {
            proof {
                assert(lv.take(j + 1).drop_last() =~= lv.take(j as int));
                assert(lv.take(j + 1).last() == lv[j as int]);
            }
            let loc = locales[j].0.as_str();
            if !str_eq(loc, canonical) && value_at_exec(&locales[j].1, &m.path, plural).is_none() {
                let mut w = owned("warning: locale '");
                push_str(&mut w, loc);
                push_str(&mut w, "' missing key '");
                push_str(&mut w, key.as_str());
                push_str(&mut w, "' \u{2014} falling back to '");
                push_str(&mut w, canonical);
                push_str(&mut w, "'");
                push_string(&mut out, w);
            }
            proof {
                assert(views(out@) =~= w0 + fallback_for(canonical@, lv.take(j + 1), m@));
            }
            j = j + 1;
        }
        proof {
            assert(lv.take(j as int) =~= lv);
            assert(views(out@) =~= fallback_warnings(canonical@, lv, msgs.take(i + 1)));
        }
        i = i + 1;
    }
    proof {
        assert(msgs.take(i as int) =~= msgs);
    }
    let ghost part1 = views(out@);
    let ghost rules = tables_view(ir.plural_rules@);
    let mut i: usize = 0;
    proof {
        assert(views(out@) =~= part1 + plural_warnings(msgs.take(0), rules));
    }
    while i < ir.messages.len()
        invariant
            i <= ir.messages@.len(),
            msgs == messages_view(ir.messages@),
            rules == tables_view(ir.plural_rules@),
            views(out@) == part1 + plural_warnings(msgs.take(i as int), rules),
        decreases ir.messages@.len() - i,
    {
        proof {
            assert(msgs.take(i + 1).drop_last() =~= msgs.take(i as int));
            assert(msgs.take(i + 1).last() == ir.messages@[i as int]@);
        }
        let m = &ir.messages[i];
        if m.kind == Kind::Plural {
            let key = m.dotted();
            let ghost w0 = views(out@);
            let ghost vv = values_view(m.values@);
            let mut j: usize = 0;
            proof {
                assert(views(out@) =~= w0 + plural_value_warnings(key@, vv.take(0), rules));
            }
            while j < m.values.len()
                invariant
                    j <= m.values@.len(),
                    vv == values_view(m.values@),
                    rules == tables_view(ir.plural_rules@),
                    views(out@) == w0 + plural_value_warnings(key@, vv.take(j as int), rules),
                decreases m.values@.len() - j,
            {
                proof {
                    assert(vv.take(j + 1).drop_last() =~= vv.take(j as int));
                    assert(vv.take(j + 1).last() == (m.values@[j as int].0@, value_view(m.values@[j as int].1)));
                }
                let loc = m.values[j].0.as_str();
                match &m.values[j].1 {
                    MessageValue::Plural(forms) => {
                        proof {
                            lemma_fields_index(rules, loc@);
                        }
                        match assoc_index(&ir.plural_rules, loc) {
                            Some(ti) => {
                                let reach = table_reach_exec(&ir.plural_rules[ti].1);
                                let ghost fv = forms@.map_values(|p: (String, String)| (p.0@, p.1@));
                                let ghost rv = views(reach@);
                                let ghost w1 = views(out@);
                                let mut c: usize = 0;
                                proof {
                                    assert(views(out@) =~= w1 + missing_form_warnings(key@, loc@, fv, rv.take(0)));
                                }
                                while c < reach.len()
                                    invariant
                                        c <= reach@.len(),
                                        rv == views(reach@),
                                        fv == forms@.map_values(|p: (String, String)| (p.0@, p.1@)),
                                        views(out@) == w1 + missing_form_warnings(key@, loc@, fv, rv.take(c as int)),
                                    decreases reach@.len() - c,
                                {
                                    proof {
                                        assert(rv.take(c + 1).drop_last() =~= rv.take(c as int));
                                        assert(rv.take(c + 1).last() == reach@[c as int]@);
                                        lemma_str_pairs_map(forms@);
                                        crate::assoc::lemma_map_vals_get(kv_view(forms@), |x: String| x@, reach@[c as int]@);
                                        lemma_fields_index(kv_view(forms@), reach@[c as int]@);
                                    }
                                    if assoc_index(forms, reach[c].as_str()).is_none() {
                                        let mut w = owned("warning: '");
                                        push_str(&mut w, key.as_str());
                                        push_str(&mut w, "' [");
                                        push_str(&mut w, loc);
                                        push_str(&mut w, "] is missing the '");
                                        push_str(&mut w, reach[c].as_str());
                                        push_str(&mut w, "' plural form this locale needs");
                                        push_string(&mut out, w);
                                    }
                                    proof {
                                        assert(views(out@) =~= w1 + missing_form_warnings(key@, loc@, fv, rv.take(c + 1)));
                                    }
                                    c = c + 1;
                                }
                                proof {
                                    assert(rv.take(c as int) =~= rv);
                                    assert(kv_view(ir.plural_rules@)[ti as int] == (ir.plural_rules@[ti as int].0@, ir.plural_rules@[ti as int].1));
                                }
                            },
                            None => {},
                        }
                    },
                    _ => {},
                }
                proof {
                    assert(views(out@) =~= w0 + plural_value_warnings(key@, vv.take(j + 1), rules));
                }
                j = j + 1;
            }
            proof {
                assert(vv.take(j as int) =~= vv);
            }
        }
        proof {
            assert(views(out@) =~= part1 + plural_warnings(msgs.take(i + 1), rules));
        }
        i = i + 1;
    }
    proof {
        assert(msgs.take(i as int) =~= msgs);
    }
    let ghost part2 = views(out@);
    let mut known: Vec<String> = Vec::new();
    let mut i: usize = 0;
    while i < ir.messages.len()
        invariant
            i <= ir.messages@.len(),
            msgs == messages_view(ir.messages@),
            views(known@) == msgs.take(i as int).map_values(|m: MsgV| seq_join(m.path, "."@)),
        decreases ir.messages@.len() - i,
    {
        let ghost kb = known@;
        push_string(&mut known, ir.messages[i].dotted());
        proof {
            assert(msgs.take(i + 1).map_values(|m: MsgV| seq_join(m.path, "."@)) =~= msgs.take(i as int).map_values(|m: MsgV| seq_join(m.path, "."@)).push(seq_join(msgs[i as int].path, "."@)));
        }
        i = i + 1;
    }
    proof {
        assert(msgs.take(i as int) =~= msgs);
    }
    let ghost kv = views(known@);
    let mut j: usize = 0;
    proof {
        assert(views(out@) =~= part2 + stale_warnings(canonical@, lv.take(0), kv));
    }
    while j < locales.len()
        invariant
            j <= locales@.len(),
            lv == view_fields(locales@),
            lv.len() == locales@.len(),
            forall|q: int| 0 <= q < locales@.len() ==> #[trigger] lv[q] == (locales@[q].0@, json_view(locales@[q].1)),
            kv == views(known@),
            views(out@) == part2 + stale_warnings(canonical@, lv.take(j as int), kv),
        decreases locales@.len() - j,
    {
        proof {
            assert(lv.take(j + 1).drop_last() =~= lv.take(j as int));
            assert(lv.take(j + 1).last() == lv[j as int]);
        }
        let loc = locales[j].0.as_str();
        if !str_eq(loc, canonical) {
            let found = collect_paths(&locales[j].1);
            let ghost fv = views(found@);
            let ghost w0 = views(out@);
            let mut c: usize = 0;
            proof {
                assert(views(out@) =~= w0 + stale_for(loc@, fv.take(0), kv, canonical@));
            }
            while c < found.len()
                invariant
                    c <= found@.len(),
                    fv == views(found@),
                    kv == views(known@),
                    views(out@) == w0 + stale_for(loc@, fv.take(c as int), kv, canonical@),
                decreases found@.len() - c,
            {
                proof {
                    assert(fv.take(c + 1).drop_last() =~= fv.take(c as int));
                    assert(fv.take(c + 1).last() == found@[c as int]@);
                }
                if !contains_str(&known, found[c].as_str()) {
                    let mut w = owned("warning: key '");
                    push_str(&mut w, found[c].as_str());
                    push_str(&mut w, "' exists in locale '");
                    push_str(&mut w, loc);
                    push_str(&mut w, "' but not in canonical '");
                    push_str(&mut w, canonical);
                    push_str(&mut w, "' \u{2014} it will be ignored");
                    push_string(&mut out, w);
                }
                proof {
                    assert(views(out@) =~= w0 + stale_for(loc@, fv.take(c + 1), kv, canonical@));
                }
                c = c + 1;
            }
            proof {
                assert(fv.take(c as int) =~= fv);
            }
        }
        proof {
            assert(views(out@) =~= part2 + stale_warnings(canonical@, lv.take(j + 1), kv));
        }
        j = j + 1;
    }
    proof {
        assert(lv.take(j as int) =~= lv);
    }
    out
}

/// Every parameter carries the type its name calls for.
pub open spec fn typed_by_name(s: Seq<(Seq<char>, ParamType)>) -> bool {
    forall|j: int| 0 <= j < s.len() ==> (#[trigger] s[j]).1 == param_type_of(s[j].0)
}

proof fn lemma_merge_params(ps: Seq<(Seq<char>, ParamType)>, new: Seq<(Seq<char>, ParamType)>)
    requires
        typed_by_name(ps),
        typed_by_name(new),
    ensures
        typed_by_name(merge_params(ps, new)),
        forall|x: (Seq<char>, ParamType)| ps.contains(x) ==> merge_params(ps, new).contains(x),
        forall|j: int| 0 <= j < new.len() && (#[trigger] new[j]).0 != "count"@ ==> merge_params(ps, new).contains(new[j]),
    decreases new.len(),
{
    if new.len() > 0 {
        let nd = new.drop_last();
        assert forall|j: int| 0 <= j < nd.len() implies (#[trigger] nd[j]).1 == param_type_of(nd[j].0) by {
            assert(nd[j] == new[j]);
        }
        lemma_merge_params(ps, nd);
        let prev = merge_params(ps, nd);
        let p = new.last();
        let names = prev.map_values(|q: (Seq<char>, ParamType)| q.0);
        assert(p.1 == param_type_of(p.0));
        if p.0 != "count"@ && !names.contains(p.0) {
            let r = prev.push(p);
            assert forall|x: (Seq<char>, ParamType)| prev.contains(x) implies r.contains(x) by {
                let a = choose|a: int| 0 <= a < prev.len() && prev[a] == x;
                assert(r[a] == x);
            }
            assert(r[prev.len() as int] == p);
            assert forall|j: int| 0 <= j < new.len() && (#[trigger] new[j]).0 != "count"@ implies r.contains(new[j]) by {
                if j < new.len() - 1 {
                    assert(nd[j] == new[j]);
                }
            }
        } else {
            assert forall|j: int| 0 <= j < new.len() && (#[trigger] new[j]).0 != "count"@ implies prev.contains(new[j]) by {
                if j < new.len() - 1 {
                    assert(nd[j] == new[j]);
                } else {
                    let a = choose|a: int| 0 <= a < names.len() && names[a] == p.0;
                    assert(prev[a].0 == p.0);
                    assert(prev[a] == p);
                }
            }
        }
    }
}

proof fn lemma_params_spec_typed(t: Seq<char>)
    ensures
        typed_by_name(params_spec(t)),
        forall|n: Seq<char>| placeholder_names_spec(t).contains(n) ==> params_spec(t).contains((n, param_type_of(n))),
{
    let d = dedup(placeholder_names_spec(t));
    assert forall|n: Seq<char>| placeholder_names_spec(t).contains(n) implies params_spec(t).contains((n, param_type_of(n))) by {
        lemma_dedup_contains(placeholder_names_spec(t), n);
        let a = choose|a: int| 0 <= a < d.len() && d[a] == n;
        assert(params_spec(t)[a] == (n, param_type_of(n)));
    }
}

proof fn lemma_plural_params_cover(forms: Seq<(Seq<char>, JsonV)>, d: Seq<char>, ps: Seq<(Seq<char>, ParamType)>)
    requires
        plural_params(forms, d) == Ok::<Seq<(Seq<char>, ParamType)>, IrErr>(ps),
    ensures
        typed_by_name(ps),
        ps.contains(("count"@, ParamType::Number)),
        forall|i: int, t: Seq<char>, n: Seq<char>|
            0 <= i < forms.len() && (#[trigger] forms[i]).1 == JsonV::Str(t) && #[trigger] placeholder_names_spec(t).contains(n)
                ==> ps.contains((n, param_type_of(n))),
    decreases forms.len(),
{
    if forms.len() == 0 {
        assert(ps[0] == ("count"@, ParamType::Number));
    } else {
        let fd = forms.drop_last();
        let ps0 = plural_params(fd, d)->Ok_0;
        lemma_plural_params_cover(fd, d, ps0);
        let tl = str_of(forms.last().1)->Some_0;
        lemma_params_spec_typed(tl);
        lemma_merge_params(ps0, params_spec(tl));
        assert forall|i: int, t: Seq<char>, n: Seq<char>|
            0 <= i < forms.len() && (#[trigger] forms[i]).1 == JsonV::Str(t) && #[trigger] placeholder_names_spec(t).contains(n)
                implies ps.contains((n, param_type_of(n))) by {
            if n == "count"@ {
                assert(param_type_of(n) == ParamType::Number);
            } else if i < forms.len() - 1 {
                assert(fd[i] == forms[i]);
            } else {
                assert(t == tl);
                let a = choose|a: int| 0 <= a < params_spec(tl).len() && params_spec(tl)[a] == (n, param_type_of(n));
                assert(params_spec(tl)[a].0 != "count"@);
            }
        }
    }
}

/// A plural's parameters cover every form: each placeholder used in any of its
/// forms, the `other` form included, is among the message's parameters, with
/// the type its name calls for (`count` a number, any other a string).
pub proof fn law_plural_params_cover_every_form(
    forms: Seq<(Seq<char>, JsonV)>,
    d: Seq<char>,
    ps: Seq<(Seq<char>, ParamType)>,
    i: int,
    t: Seq<char>,
    n: Seq<char>,
)
    requires
        plural_shape(JsonV::Obj(forms), d) == Ok::<Seq<(Seq<char>, ParamType)>, IrErr>(ps),
        0 <= i < forms.len(),
        forms[i].1 == JsonV::Str(t),
        placeholder_names_spec(t).contains(n),
    ensures
        ps.contains((n, param_type_of(n))),
{
    lemma_plural_params_cover(forms, d, ps);
    assert(forms[i].1 == JsonV::Str(t) && placeholder_names_spec(t).contains(n));
}

} // verus!
