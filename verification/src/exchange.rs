//! Translator interchange: export the catalog to a translator-friendly format
//! (CSV or XLIFF 1.2) and import the completed file back into the JSON catalog.
//! The JSON stays the source of truth; the exchange file is transport only.
//!
//! Import is driven by the canonical catalog's structure: only the strings come
//! from the translation file, so a translator can never reshape a `$plural` or
//! rename a `$select` param. Plural categories on export are those the target
//! locale's CLDR rules produce.

use vstd::prelude::*;
use crate::check::{member, modulo_names, small_names};
use crate::error::Error;
use crate::json::{
    field_index, fields_get, fields_index, fields_insert, insert_field, json_view, keys_sorted, lemma_fields_index,
    lemma_fields_insert, lemma_view_fields, lemma_wf_fields, view_fields, wf_json, Json, JsonV,
};
use crate::plural::{build_plural_table, plural_error_for, plural_table_fails};
use crate::assoc::contains_str;
use crate::csvio::{csv_error_detail, csv_read, csv_written, read_csv, table_view, uniform, utf8_text, write_csv};
use crate::placeholder::word_char;
use crate::text::{concat3, copy_string, find_from, first_occurrence, join, lemma_first_occurrence, occurs_at, owned, seq_join, views};

verus! {

/// One translatable entry. `id` is the dotted key, with a `#category` /
/// `#case` suffix for one plural form or select case (e.g. `inbox.unread#one`).
pub struct Unit {
    pub id: String,
    pub source: String,
    pub target: String,
}

/// A unit by view: id, source, target.
pub type UnitV = (Seq<char>, Seq<char>, Seq<char>);

pub open spec fn unit_view(u: Unit) -> UnitV {
    (u.id@, u.source@, u.target@)
}

pub open spec fn units_view(s: Seq<Unit>) -> Seq<UnitV> {
    s.map_values(|u: Unit| unit_view(u))
}

pub open spec fn opt_json(o: Option<&Json>) -> Option<JsonV> {
    match o {
        Some(j) => Some(j@),
        None => None,
    }
}

/// The string of a node, or the empty string.
pub open spec fn text_of(o: Option<JsonV>) -> Seq<char> {
    match o {
        Some(JsonV::Str(s)) => s,
        _ => Seq::empty(),
    }
}

/// The forms of a `$plural` leaf.
pub open spec fn plural_forms_spec(v: JsonV) -> Option<Seq<(Seq<char>, JsonV)>> {
    match member(v, "$plural"@) {
        Some(JsonV::Obj(fs)) => Some(fs),
        _ => None,
    }
}

/// The cases of a `$select` leaf.
pub open spec fn select_cases_spec(v: JsonV) -> Option<Seq<(Seq<char>, JsonV)>> {
    match member(v, "$select"@) {
        Some(sel) => match member(sel, "cases"@) {
            Some(JsonV::Obj(cs)) => Some(cs),
            _ => None,
        },
        None => None,
    }
}

/// The node under `k` of an optional object.
pub open spec fn target_child(target: Option<JsonV>, k: Seq<char>) -> Option<JsonV> {
    match target {
        Some(t) => member(t, k),
        None => None,
    }
}

/// The id of one plural form or select case of the leaf `d`.
pub open spec fn sub_id(d: Seq<char>, c: Seq<char>) -> Seq<char> {
    d + seq!['#'] + c
}

/// The unit of category `cat` of a plural: the source falls back to the
/// canonical `other` form for a category the canonical locale lacks.
pub open spec fn plural_unit(
    d: Seq<char>,
    forms: Seq<(Seq<char>, JsonV)>,
    tforms: Option<Seq<(Seq<char>, JsonV)>>,
    cat: Seq<char>,
) -> UnitV {
    (
        sub_id(d, cat),
        match fields_get(forms, cat) {
            Some(v) => text_of(Some(v)),
            None => text_of(fields_get(forms, "other"@)),
        },
        match tforms {
            Some(tf) => text_of(fields_get(tf, cat)),
            None => Seq::empty(),
        },
    )
}

/// The unit of one select case.
pub open spec fn select_unit(d: Seq<char>, tcases: Option<Seq<(Seq<char>, JsonV)>>, case: (Seq<char>, JsonV)) -> UnitV {
    (
        sub_id(d, case.0),
        text_of(Some(case.1)),
        match tcases {
            Some(tc) => text_of(fields_get(tc, case.0)),
            None => Seq::empty(),
        },
    )
}

pub open spec fn opt_forms(t: Option<JsonV>) -> Option<Seq<(Seq<char>, JsonV)>> {
    match t {
        Some(x) => plural_forms_spec(x),
        None => None,
    }
}

pub open spec fn opt_cases(t: Option<JsonV>) -> Option<Seq<(Seq<char>, JsonV)>> {
    match t {
        Some(x) => select_cases_spec(x),
        None => None,
    }
}

/// `out` followed by the units of the entry `k: cval` under `path`, with
/// `tnode` the target locale's node for it.
pub open spec fn export_entry(
    k: Seq<char>,
    cval: JsonV,
    tnode: Option<JsonV>,
    cats: Seq<Seq<char>>,
    path: Seq<Seq<char>>,
    out: Seq<UnitV>,
) -> Seq<UnitV>
    decreases cval,
{
    let p = path.push(k);
    let d = seq_join(p, "."@);
    match cval {
        JsonV::Str(src) => out.push((d, src, text_of(tnode))),
        JsonV::Obj(fs) => if plural_forms_spec(cval) is Some {
            out + cats.map_values(|c: Seq<char>| plural_unit(d, plural_forms_spec(cval).unwrap(), opt_forms(tnode), c))
        } else if select_cases_spec(cval) is Some {
            out + select_cases_spec(cval).unwrap().map_values(
                |cs: (Seq<char>, JsonV)| select_unit(d, opt_cases(tnode), cs),
            )
        } else {
            export_fields(fs, tnode, cats, p, out)
        },
        _ => out,
    }
}

/// `out` followed by the units of the entries `fs`, in order.
pub open spec fn export_fields(
    fs: Seq<(Seq<char>, JsonV)>,
    target: Option<JsonV>,
    cats: Seq<Seq<char>>,
    path: Seq<Seq<char>>,
    out: Seq<UnitV>,
) -> Seq<UnitV>
    decreases fs,
{
    if fs.len() == 0 {
        out
    } else {
        let last = fs[fs.len() - 1];
        export_entry(
            last.0,
            last.1,
            target_child(target, last.0),
            cats,
            path,
            export_fields(fs.subrange(0, fs.len() - 1), target, cats, path, out),
        )
    }
}

/// Every unit of the canonical catalog, paired with the target's translation.
pub open spec fn export_spec(canon: JsonV, target: Option<JsonV>, cats: Seq<Seq<char>>) -> Seq<UnitV> {
    match canon {
        JsonV::Obj(fs) => export_fields(fs, target, cats, Seq::empty(), Seq::empty()),
        _ => Seq::empty(),
    }
}

/// The category names, in CLDR order.
pub open spec fn category_names() -> Seq<Seq<char>> {
    seq!["zero"@, "one"@, "two"@, "few"@, "many"@, "other"@]
}

/// The names of `names` that `tag`'s integer rules produce, in order.
pub open spec fn keep_present(names: Seq<Seq<char>>, tag: Seq<char>) -> Seq<Seq<char>>
    decreases names.len(),
{
    if names.len() == 0 {
        Seq::empty()
    } else {
        let prev = keep_present(names.drop_last(), tag);
        if small_names(tag).contains(names.last()) || modulo_names(tag).contains(names.last()) {
            prev.push(names.last())
        } else {
            prev
        }
    }
}

/// The plural categories `tag`'s integer CLDR rules produce, in CLDR order.
pub open spec fn export_cats(tag: Seq<char>) -> Seq<Seq<char>> {
    keep_present(category_names(), tag)
}

/// The plural categories `locale`'s integer CLDR rules actually produce, ordered.
pub fn target_plural_categories(locale: &str) -> (r: Result<Vec<String>, Error>)
    ensures
        r is Ok <==> !plural_table_fails(locale@),
        r matches Ok(c) ==> views(c@) == export_cats(locale@),
        r matches Err(e) ==> plural_error_for(e, locale@),
{
    let table = match build_plural_table(locale) {
        Ok(t) => t,
        Err(e) => return Err(e),
    };
    proof {
        assert(table.small@.map_values(|s: String| s@) =~= small_names(locale@));
        assert(table.modulo@.map_values(|s: String| s@) =~= modulo_names(locale@));
    }
    let names: [&str; 6] = ["zero", "one", "two", "few", "many", "other"];
    let ghost nv = category_names();
    proof {
        reveal_strlit("zero");
        reveal_strlit("one");
        reveal_strlit("two");
        reveal_strlit("few");
        reveal_strlit("many");
        reveal_strlit("other");
        assert(names@.map_values(|s: &str| s@) =~= nv);
        assert(nv.take(0) =~= Seq::<Seq<char>>::empty());
    }
    let mut out: Vec<String> = Vec::new();
    let mut i: usize = 0;
    while i < 6
        invariant
            i <= 6,
            nv == category_names(),
            names@.map_values(|s: &str| s@) == nv,
            table.small@.map_values(|s: String| s@) == small_names(locale@),
            table.modulo@.map_values(|s: String| s@) == modulo_names(locale@),
            views(out@) == keep_present(nv.take(i as int), locale@),
        decreases 6 - i,
    {
        let name = names[i];
        proof {
            assert(nv.take(i + 1).drop_last() =~= nv.take(i as int));
            assert(nv.take(i + 1).last() == nv[i as int]);
            assert(name@ == nv[i as int]);
        }
        if contains_str(&table.small, name) || contains_str(&table.modulo, name) {
            let ghost before = out@;
            out.push(owned(name));
            proof {
                assert(views(out@) =~= views(before).push(name@));
            }
        }
        i = i + 1;
    }
    proof {
        assert(nv.take(6) =~= nv);
    }
    Ok(out)
}

/// The forms of a `$plural` leaf.
fn plural_forms(v: &Json) -> (r: Option<&Vec<(String, Json)>>)
    ensures
        match plural_forms_spec(v@) {
            Some(fs) => r matches Some(x) && view_fields(x@) == fs,
            None => r is None,
        },
{
    match v.get("$plural") {
        Some(p) => p.as_object(),
        None => None,
    }
}

/// The cases of a `$select` leaf.
fn select_cases(v: &Json) -> (r: Option<&Vec<(String, Json)>>)
    ensures
        match select_cases_spec(v@) {
            Some(fs) => r matches Some(x) && view_fields(x@) == fs,
            None => r is None,
        },
{
    match v.get("$select") {
        Some(sel) => match sel.get("cases") {
            Some(c) => c.as_object(),
            None => None,
        },
        None => None,
    }
}

/// The member `k` of an optional node.
fn child_of<'a>(target: Option<&'a Json>, k: &str) -> (r: Option<&'a Json>)
    ensures
        opt_json(r) == target_child(opt_json(target), k@),
{
    match target {
        Some(t) => t.get(k),
        None => None,
    }
}

/// The entry `k` of a field list.
fn field_get<'a>(fs: &'a Vec<(String, Json)>, k: &str) -> (r: Option<&'a Json>)
    ensures
        opt_json(r) == fields_get(view_fields(fs@), k@),
{
    proof {
        lemma_view_fields(fs@);
        lemma_fields_index(view_fields(fs@), k@);
    }
    match field_index(fs, k) {
        Some(i) => Some(&fs[i].1),
        None => None,
    }
}

/// The string of a node, or the empty string.
fn text_or_empty(o: Option<&Json>) -> (r: String)
    ensures
        r@ == text_of(opt_json(o)),
{
    match o {
        Some(Json::Str(s)) => copy_string(s),
        _ => String::new(),
    }
}

proof fn lemma_units_push(s: Seq<Unit>, u: Unit)
    ensures
        units_view(s.push(u)) == units_view(s).push(unit_view(u)),
{
    assert(units_view(s.push(u)) =~= units_view(s).push(unit_view(u)));
}

proof fn lemma_views_push(s: Seq<String>, x: String)
    ensures
        views(s.push(x)) == views(s).push(x@),
{
    assert(views(s.push(x)) =~= views(s).push(x@));
}

/// Appends the units of the entry `k: cval` (see `export_entry`).
fn export_entry_exec(
    k: &String,
    cval: &Json,
    tnode: Option<&Json>,
    cats: &Vec<String>,
    path: &mut Vec<String>,
    out: &mut Vec<Unit>,
)
    ensures
        final(path)@ == old(path)@,
        units_view(final(out)@) == export_entry(k@, cval@, opt_json(tnode), views(cats@), views(old(path)@), units_view(old(out)@)),
    decreases cval,
{
    let ghost path0 = path@;
    let ghost out0 = units_view(out@);
    path.push(copy_string(k));
    proof {
        lemma_views_push(path0, path@.last());
    }
    let d = join(path, ".");
    let ghost cv = views(cats@);
    match cval {
        Json::Str(src) => {
            let t = text_or_empty(tnode);
            let u = Unit { id: d, source: copy_string(src), target: t };
            let ghost before = out@;
            out.push(u);
            proof {
                lemma_units_push(before, u);
            }
        },
        Json::Object(fs) => {
            match plural_forms(cval) {
                Some(forms) => {
                    let tforms = match tnode {
                        Some(t) => plural_forms(t),
                        None => None,
                    };
                    let ghost fv = view_fields(forms@);
                    let ghost tfv = opt_forms(opt_json(tnode));
                    let ghost f = |c: Seq<char>| plural_unit(d@, fv, tfv, c);
                    proof {
                        assert(cv.take(0).map_values(f) =~= Seq::<UnitV>::empty());
                    }
                    let mut i: usize = 0;
                    while i < cats.len()
                        invariant
                            i <= cats@.len(),
                            cv == views(cats@),
                            fv == view_fields(forms@),
                            f == (|c: Seq<char>| plural_unit(d@, fv, tfv, c)),
                            match tfv {
                                Some(x) => tforms matches Some(y) && view_fields(y@) == x,
                                None => tforms is None,
                            },
                            units_view(out@) == out0 + cv.take(i as int).map_values(f),
                        decreases cats@.len() - i,
                    {
                        let cat = &cats[i];
                        let src = match field_get(forms, cat.as_str()) {
                            Some(v) => text_or_empty(Some(v)),
                            None => text_or_empty(field_get(forms, "other")),
                        };
                        let tgt = match tforms {
                            Some(tf) => text_or_empty(field_get(tf, cat.as_str())),
                            None => String::new(),
                        };
                        let u = Unit { id: concat3(d.as_str(), "#", cat.as_str()), source: src, target: tgt };
                        let ghost before = out@;
                        out.push(u);
                        proof {
                            reveal_strlit("#");
                            lemma_units_push(before, u);
                            assert(cv[i as int] == cat@);
                            assert(unit_view(u) == f(cv[i as int]));
                            assert(cv.take(i + 1).map_values(f) =~= cv.take(i as int).map_values(f).push(f(cv[i as int])));
                        }
                        i = i + 1;
                    }
                    proof {
                        assert(cv.take(cats@.len() as int) =~= cv);
                    }
                },
                None => {
                    match select_cases(cval) {
                        Some(cases) => {
                            let tcases = match tnode {
                                Some(t) => select_cases(t),
                                None => None,
                            };
                            let ghost csv = view_fields(cases@);
                            let ghost tcv = opt_cases(opt_json(tnode));
                            let ghost f = |cs: (Seq<char>, JsonV)| select_unit(d@, tcv, cs);
                            proof {
                                lemma_view_fields(cases@);
                                assert(csv.take(0).map_values(f) =~= Seq::<UnitV>::empty());
                            }
                            let mut i: usize = 0;
                            while i < cases.len()
                                invariant
                                    i <= cases@.len(),
                                    csv == view_fields(cases@),
                                    csv.len() == cases@.len(),
                                    forall|j: int| 0 <= j < cases@.len() ==> #[trigger] csv[j] == (cases@[j].0@, json_view(cases@[j].1)),
                                    f == (|cs: (Seq<char>, JsonV)| select_unit(d@, tcv, cs)),
                                    match tcv {
                                        Some(x) => tcases matches Some(y) && view_fields(y@) == x,
                                        None => tcases is None,
                                    },
                                    units_view(out@) == out0 + csv.take(i as int).map_values(f),
                                decreases cases@.len() - i,
                            {
                                let key = &cases[i].0;
                                let src = text_or_empty(Some(&cases[i].1));
                                let tgt = match tcases {
                                    Some(tc) => text_or_empty(field_get(tc, key.as_str())),
                                    None => String::new(),
                                };
                                let u = Unit { id: concat3(d.as_str(), "#", key.as_str()), source: src, target: tgt };
                                let ghost before = out@;
                                out.push(u);
                                proof {
                                    reveal_strlit("#");
                                    lemma_units_push(before, u);
                                    assert(unit_view(u) == f(csv[i as int]));
                                    assert(csv.take(i + 1).map_values(f) =~= csv.take(i as int).map_values(f).push(f(csv[i as int])));
                                }
                                i = i + 1;
                            }
                            proof {
                                assert(csv.take(cases@.len() as int) =~= csv);
                            }
                        },
                        None => {
                            export_fields_exec(fs, tnode, cats, path, out);
                        },
                    }
                },
            }
        },
        _ => {},
    }
    path.pop();
    proof {
        assert(path@ =~= path0);
    }
}

/// Appends the units of the entries `fs` (see `export_fields`).
fn export_fields_exec(
    fs: &Vec<(String, Json)>,
    target: Option<&Json>,
    cats: &Vec<String>,
    path: &mut Vec<String>,
    out: &mut Vec<Unit>,
)
    ensures
        final(path)@ == old(path)@,
        units_view(final(out)@) == export_fields(view_fields(fs@), opt_json(target), views(cats@), views(old(path)@), units_view(old(out)@)),
    decreases fs,
{
    let ghost vf = view_fields(fs@);
    let ghost out0 = units_view(out@);
    let ghost pv = views(path@);
    proof {
        lemma_view_fields(fs@);
        assert(vf.subrange(0, 0) =~= Seq::<(Seq<char>, JsonV)>::empty());
    }
    let mut i: usize = 0;
    while i < fs.len()
        invariant
            i <= fs@.len(),
            vf == view_fields(fs@),
            vf.len() == fs@.len(),
            forall|j: int| 0 <= j < fs@.len() ==> #[trigger] vf[j] == (fs@[j].0@, json_view(fs@[j].1)),
            path@ == old(path)@,
            pv == views(old(path)@),
            out0 == units_view(old(out)@),
            units_view(out@) == export_fields(vf.subrange(0, i as int), opt_json(target), views(cats@), pv, out0),
        decreases fs@.len() - i,
    {
        proof {
            assert(vf.subrange(0, i + 1).subrange(0, i as int) =~= vf.subrange(0, i as int));
            assert(vf.subrange(0, i + 1)[i as int] == vf[i as int]);
            assert(decreases_to!(fs => fs[i as int]));
        }
        let tnode = child_of(target, fs[i].0.as_str());
        export_entry_exec(&fs[i].0, &fs[i].1, tnode, cats, path, out);
        i = i + 1;
    }
    proof {
        assert(vf.subrange(0, i as int) =~= vf);
    }
}

/// The translation units for `target_locale`: every leaf of the canonical
/// catalog paired with the target's existing translation (or empty); plural
/// leaves expand to the target locale's categories. Fails when the target
/// locale's plural rules cannot be loaded.
pub fn export_units(canonical: &Json, target: Option<&Json>, target_locale: &str) -> (r: Result<Vec<Unit>, Error>)
    requires
        wf_json(canonical@),
        target matches Some(t) ==> wf_json(t@),
    ensures
        r is Ok <==> !plural_table_fails(target_locale@),
        r matches Ok(u) ==> units_view(u@) == export_spec(canonical@, opt_json(target), export_cats(target_locale@)),
        r matches Err(e) ==> plural_error_for(e, target_locale@),
{
    let cats = match target_plural_categories(target_locale) {
        Ok(c) => c,
        Err(e) => return Err(e),
    };
    let mut units: Vec<Unit> = Vec::new();
    let mut path: Vec<String> = Vec::new();
    proof {
        assert(units_view(units@) =~= Seq::<UnitV>::empty());
        assert(views(path@) =~= Seq::<Seq<char>>::empty());
    }
    match canonical {
        Json::Object(fs) => {
            export_fields_exec(fs, target, &cats, &mut path, &mut units);
        },
        _ => {},
    }
    Ok(units)
}

/// The translation for `id`: the last unit with that id and a non-empty target.
pub open spec fn unit_target(units: Seq<UnitV>, id: Seq<char>) -> Option<Seq<char>>
    decreases units.len(),
{
    if units.len() == 0 {
        None
    } else {
        let u = units.last();
        if u.0 == id && u.2.len() > 0 {
            Some(u.2)
        } else {
            unit_target(units.drop_last(), id)
        }
    }
}

/// The translated branches of the leaf `d`, one per name in `names` that has a
/// translation, as an object's fields.
pub open spec fn built_branches(units: Seq<UnitV>, d: Seq<char>, names: Seq<Seq<char>>) -> Seq<(Seq<char>, JsonV)>
    decreases names.len(),
{
    if names.len() == 0 {
        Seq::empty()
    } else {
        let prev = built_branches(units, d, names.drop_last());
        match unit_target(units, sub_id(d, names.last())) {
            Some(t) => fields_insert(prev, names.last(), JsonV::Str(t)),
            None => prev,
        }
    }
}

/// The `param` of a `$select` leaf, `value` when it has none.
pub open spec fn select_param(cval: JsonV) -> Seq<char> {
    match member(cval, "$select"@) {
        Some(sel) => match member(sel, "param"@) {
            Some(JsonV::Str(p)) => p,
            _ => "value"@,
        },
        None => "value"@,
    }
}

/// `{ "$plural": forms }`.
pub open spec fn plural_node(forms: Seq<(Seq<char>, JsonV)>) -> JsonV {
    JsonV::Obj(seq![("$plural"@, JsonV::Obj(forms))])
}

/// `{ "$select": { "cases": cases, "param": param } }`.
pub open spec fn select_node(param: Seq<char>, cases: Seq<(Seq<char>, JsonV)>) -> JsonV {
    JsonV::Obj(seq![("$select"@, JsonV::Obj(seq![("cases"@, JsonV::Obj(cases)), ("param"@, JsonV::Str(param))]))])
}

/// A rebuilt leaf: its path and its value.
pub type PathV = (Seq<Seq<char>>, JsonV);

pub open spec fn paths_view(s: Seq<(Vec<String>, Json)>) -> Seq<PathV> {
    s.map_values(|e: (Vec<String>, Json)| (views(e.0@), e.1@))
}

/// `out` followed by the rebuilt leaf of the canonical entry `k: cval`.
pub open spec fn build_entry(k: Seq<char>, cval: JsonV, units: Seq<UnitV>, path: Seq<Seq<char>>, out: Seq<PathV>) -> Seq<PathV>
    decreases cval,
{
    let p = path.push(k);
    let d = seq_join(p, "."@);
    match cval {
        JsonV::Str(_) => match unit_target(units, d) {
            Some(t) => out.push((p, JsonV::Str(t))),
            None => out,
        },
        JsonV::Obj(fs) => if plural_forms_spec(cval) is Some {
            let forms = built_branches(units, d, category_names());
            if forms.len() > 0 {
                out.push((p, plural_node(forms)))
            } else {
                out
            }
        } else if select_cases_spec(cval) is Some {
            let cases = built_branches(
                units,
                d,
                select_cases_spec(cval).unwrap().map_values(|e: (Seq<char>, JsonV)| e.0),
            );
            if cases.len() > 0 {
                out.push((p, select_node(select_param(cval), cases)))
            } else {
                out
            }
        } else {
            build_fields(fs, units, p, out)
        },
        _ => out,
    }
}

/// `out` followed by the rebuilt leaves of the entries `fs`, in order.
pub open spec fn build_fields(fs: Seq<(Seq<char>, JsonV)>, units: Seq<UnitV>, path: Seq<Seq<char>>, out: Seq<PathV>) -> Seq<PathV>
    decreases fs,
{
    if fs.len() == 0 {
        out
    } else {
        let last = fs[fs.len() - 1];
        build_entry(last.0, last.1, units, path, build_fields(fs.subrange(0, fs.len() - 1), units, path, out))
    }
}

/// The target locale as `(path, leaf)` pairs: the canonical catalog gives the
/// structure and the units the strings; untranslated entries are left out.
pub open spec fn build_paths_spec(canon: JsonV, units: Seq<UnitV>) -> Seq<PathV> {
    match canon {
        JsonV::Obj(fs) => build_fields(fs, units, Seq::empty(), Seq::empty()),
        _ => Seq::empty(),
    }
}

/// The translation for `id` (see `unit_target`).
fn lookup_unit<'a>(units: &'a Vec<Unit>, id: &str) -> (r: Option<&'a String>)
    ensures
        match unit_target(units_view(units@), id@) {
            Some(t) => r matches Some(x) && x@ == t,
            None => r is None,
        },
{
    let ghost uv = units_view(units@);
    let mut i: usize = units.len();
    proof {
        assert(uv.take(i as int) =~= uv);
        reveal_strlit("");
    }
    while i > 0
        invariant
            i <= units@.len(),
            uv == units_view(units@),
            unit_target(uv, id@) == unit_target(uv.take(i as int), id@),
        decreases i,
    {
        let u = &units[i - 1];
        proof {
            assert(uv.take(i as int).drop_last() =~= uv.take(i - 1));
            assert(uv.take(i as int).last() == unit_view(*u));
        }
        proof {
            reveal_strlit("");
        }
        if !crate::text::str_eq(u.target.as_str(), "") && crate::text::str_eq(u.id.as_str(), id) {
            proof {
                reveal_strlit("");
                assert(""@.len() == 0);
                if u.target@.len() == 0 {
                    assert(u.target@ =~= ""@);
                }
            }
            return Some(&u.target);
        }
        i = i - 1;
    }
    None
}

/// The translated branches of `d` for the names `names` (see `built_branches`).
fn build_branches(units: &Vec<Unit>, d: &String, names: &Vec<String>) -> (r: Vec<(String, Json)>)
    ensures
        view_fields(r@) == built_branches(units_view(units@), d@, views(names@)),
{
    let ghost nv = views(names@);
    let mut out: Vec<(String, Json)> = Vec::new();
    proof {
        assert(view_fields(out@) =~= Seq::<(Seq<char>, JsonV)>::empty());
        assert(nv.take(0) =~= Seq::<Seq<char>>::empty());
    }
    let mut i: usize = 0;
    while i < names.len()
        invariant
            i <= names@.len(),
            nv == views(names@),
            view_fields(out@) == built_branches(units_view(units@), d@, nv.take(i as int)),
        decreases names@.len() - i,
    {
        proof {
            assert(nv.take(i + 1).drop_last() =~= nv.take(i as int));
            assert(nv.take(i + 1).last() == names@[i as int]@);
        }
        let id = concat3(d.as_str(), "#", names[i].as_str());
        proof {
            reveal_strlit("#");
            assert(id@ == sub_id(d@, names@[i as int]@));
        }
        match lookup_unit(units, id.as_str()) {
            Some(t) => {
                insert_field(&mut out, copy_string(&names[i]), Json::Str(copy_string(t)));
            },
            None => {},
        }
        i = i + 1;
    }
    proof {
        assert(nv.take(names@.len() as int) =~= nv);
    }
    out
}

proof fn lemma_paths_push(s: Seq<(Vec<String>, Json)>, e: (Vec<String>, Json))
    ensures
        paths_view(s.push(e)) == paths_view(s).push((views(e.0@), e.1@)),
{
    assert(paths_view(s.push(e)) =~= paths_view(s).push((views(e.0@), e.1@)));
}

/// A copy of a list of strings.
fn copy_strings(v: &Vec<String>) -> (r: Vec<String>)
    ensures
        views(r@) == views(v@),
{
    let mut r: Vec<String> = Vec::new();
    let mut i: usize = 0;
    while i < v.len()
        invariant
            i <= v@.len(),
            r@.len() == i,
            views(r@) == views(v@).take(i as int),
        decreases v@.len() - i,
    {
        let ghost before = r@;
        r.push(copy_string(&v[i]));
        proof {
            assert forall|j: int| 0 <= j < i + 1 implies #[trigger] views(r@)[j] == views(v@).take(i + 1)[j] by {
                if j < i {
                    assert(r@[j] == before[j]);
                    assert(views(before)[j] == views(v@).take(i as int)[j]);
                }
            }
            assert(views(r@) =~= views(v@).take(i + 1));
        }
        i = i + 1;
    }
    proof {
        assert(views(v@).take(v@.len() as int) =~= views(v@));
    }
    r
}

/// Appends the rebuilt leaf of the entry `k: cval` (see `build_entry`).
fn build_entry_exec(
    k: &String,
    cval: &Json,
    units: &Vec<Unit>,
    path: &mut Vec<String>,
    out: &mut Vec<(Vec<String>, Json)>,
)
    ensures
        final(path)@ == old(path)@,
        paths_view(final(out)@) == build_entry(k@, cval@, units_view(units@), views(old(path)@), paths_view(old(out)@)),
    decreases cval,
{
    let ghost path0 = path@;
    path.push(copy_string(k));
    proof {
        lemma_views_push(path0, path@.last());
    }
    let d = join(path, ".");
    match cval {
        Json::Str(_) => {
            match lookup_unit(units, d.as_str()) {
                Some(t) => {
                    let e = (copy_strings(path), Json::Str(copy_string(t)));
                    let ghost before = out@;
                    out.push(e);
                    proof {
                        lemma_paths_push(before, e);
                    }
                },
                None => {},
            }
        },
        Json::Object(fs) => {
            match plural_forms(cval) {
                Some(_) => {
                    let names: Vec<String> = vec![owned("zero"), owned("one"), owned("two"), owned("few"), owned("many"), owned("other")];
                    proof {
                        assert(views(names@) =~= category_names());
                    }
                    let forms = build_branches(units, &d, &names);
                    if forms.len() > 0 {
                        let mut node: Vec<(String, Json)> = Vec::new();
                        node.push((owned("$plural"), Json::Object(forms)));
                        let e = (copy_strings(path), Json::Object(node));
                        proof {
                            lemma_view_fields(node@);
                            lemma_view_fields(forms@);
                            assert(view_fields(node@) =~= seq![("$plural"@, JsonV::Obj(view_fields(forms@)))]);
                        }
                        let ghost before = out@;
                        out.push(e);
                        proof {
                            lemma_paths_push(before, e);
                        }
                    } else {
                        proof {
                            lemma_view_fields(forms@);
                        }
                    }
                },
                None => {
                    match select_cases(cval) {
                        Some(cases) => {
                            let mut names: Vec<String> = Vec::new();
                            let ghost cv = view_fields(cases@);
                            let ghost keys = cv.map_values(|e: (Seq<char>, JsonV)| e.0);
                            proof {
                                lemma_view_fields(cases@);
                                assert(views(names@) =~= keys.take(0));
                            }
                            let mut i: usize = 0;
                            while i < cases.len()
                                invariant
                                    i <= cases@.len(),
                                    cv == view_fields(cases@),
                                    cv.len() == cases@.len(),
                                    forall|j: int| 0 <= j < cases@.len() ==> #[trigger] cv[j] == (cases@[j].0@, json_view(cases@[j].1)),
                                    keys == cv.map_values(|e: (Seq<char>, JsonV)| e.0),
                                    views(names@) == keys.take(i as int),
                                decreases cases@.len() - i,
                            {
                                let ghost before = names@;
                                names.push(copy_string(&cases[i].0));
                                proof {
                                    lemma_views_push(before, names@.last());
                                    assert(keys.take(i + 1) =~= keys.take(i as int).push(keys[i as int]));
                                }
                                i = i + 1;
                            }
                            proof {
                                assert(keys.take(cases@.len() as int) =~= keys);
                            }
                            let built = build_branches(units, &d, &names);
                            if built.len() > 0 {
                                let param = match cval.get("$select") {
                                    Some(sel) => match sel.get("param") {
                                        Some(Json::Str(pm)) => copy_string(pm),
                                        _ => owned("value"),
                                    },
                                    None => owned("value"),
                                };
                                let mut inner: Vec<(String, Json)> = Vec::new();
                                let ghost bv = view_fields(built@);
                                inner.push((owned("cases"), Json::Object(built)));
                                inner.push((owned("param"), Json::Str(param)));
                                let mut node: Vec<(String, Json)> = Vec::new();
                                let ghost iv = view_fields(inner@);
                                node.push((owned("$select"), Json::Object(inner)));
                                proof {
                                    lemma_view_fields(inner@);
                                    lemma_view_fields(node@);
                                    assert(iv =~= seq![("cases"@, JsonV::Obj(bv)), ("param"@, JsonV::Str(param@))]);
                                    assert(view_fields(node@) =~= seq![("$select"@, JsonV::Obj(iv))]);
                                    assert(param@ == select_param(cval@));
                                }
                                let e = (copy_strings(path), Json::Object(node));
                                let ghost before = out@;
                                out.push(e);
                                proof {
                                    lemma_paths_push(before, e);
                                }
                            } else {
                                proof {
                                    lemma_view_fields(built@);
                                }
                            }
                        },
                        None => {
                            build_fields_exec(fs, units, path, out);
                        },
                    }
                },
            }
        },
        _ => {},
    }
    path.pop();
    proof {
        assert(path@ =~= path0);
    }
}

/// Appends the rebuilt leaves of the entries `fs` (see `build_fields`).
fn build_fields_exec(fs: &Vec<(String, Json)>, units: &Vec<Unit>, path: &mut Vec<String>, out: &mut Vec<(Vec<String>, Json)>)
    ensures
        final(path)@ == old(path)@,
        paths_view(final(out)@) == build_fields(view_fields(fs@), units_view(units@), views(old(path)@), paths_view(old(out)@)),
    decreases fs,
{
    let ghost vf = view_fields(fs@);
    let ghost out0 = paths_view(out@);
    let ghost pv = views(path@);
    proof {
        lemma_view_fields(fs@);
        assert(vf.subrange(0, 0) =~= Seq::<(Seq<char>, JsonV)>::empty());
    }
    let mut i: usize = 0;
    while i < fs.len()
        invariant
            i <= fs@.len(),
            vf == view_fields(fs@),
            vf.len() == fs@.len(),
            forall|j: int| 0 <= j < fs@.len() ==> #[trigger] vf[j] == (fs@[j].0@, json_view(fs@[j].1)),
            path@ == old(path)@,
            pv == views(old(path)@),
            out0 == paths_view(old(out)@),
            paths_view(out@) == build_fields(vf.subrange(0, i as int), units_view(units@), pv, out0),
        decreases fs@.len() - i,
    {
        proof {
            assert(vf.subrange(0, i + 1).subrange(0, i as int) =~= vf.subrange(0, i as int));
            assert(vf.subrange(0, i + 1)[i as int] == vf[i as int]);
            assert(decreases_to!(fs => fs[i as int]));
        }
        build_entry_exec(&fs[i].0, &fs[i].1, units, path, out);
        i = i + 1;
    }
    proof {
        assert(vf.subrange(0, i as int) =~= vf);
    }
}

/// Rebuilds the target locale as `(path, leaf)` pairs from the canonical
/// catalog's structure and the units' strings (see `build_paths_spec`).
pub fn build_paths(canonical: &Json, units: &Vec<Unit>) -> (r: Vec<(Vec<String>, Json)>)
    requires
        wf_json(canonical@),
    ensures
        paths_view(r@) == build_paths_spec(canonical@, units_view(units@)),
{
    let mut out: Vec<(Vec<String>, Json)> = Vec::new();
    let mut path: Vec<String> = Vec::new();
    proof {
        assert(paths_view(out@) =~= Seq::<PathV>::empty());
        assert(views(path@) =~= Seq::<Seq<char>>::empty());
    }
    match canonical {
        Json::Object(fs) => build_fields_exec(fs, units, &mut path, &mut out),
        _ => {},
    }
    out
}

/// `root` with the node at `path` set to `value`: intermediate objects are
/// created, non-objects on the way replaced by objects, and the whole leaf is
/// replaced (a re-imported `$plural` does not union with an old one).
pub open spec fn set_path_spec(root: JsonV, path: Seq<Seq<char>>, value: JsonV) -> JsonV
    decreases path.len(),
{
    let fs = match root {
        JsonV::Obj(f) => f,
        _ => Seq::empty(),
    };
    if path.len() <= 1 {
        JsonV::Obj(fields_insert(fs, path[0], value))
    } else {
        let child = match fields_get(fs, path[0]) {
            Some(c) => c,
            None => JsonV::Obj(Seq::empty()),
        };
        JsonV::Obj(fields_insert(fs, path[0], set_path_spec(child, path.drop_first(), value)))
    }
}

/// `root` with `path[i..]` set to `value` (see `set_path_spec`).
fn set_from(root: Json, path: &Vec<String>, i: usize, value: Json) -> (r: Json)
    requires
        i < path@.len(),
    ensures
        r@ == set_path_spec(root@, views(path@).subrange(i as int, path@.len() as int), value@),
    decreases path@.len() - i,
{
    let ghost ps = views(path@).subrange(i as int, path@.len() as int);
    proof {
        assert(ps[0] == path@[i as int]@);
        assert(ps.drop_first() =~= views(path@).subrange(i + 1, path@.len() as int));
    }
    let mut fs = match root {
        Json::Object(f) => f,
        _ => {
            let e: Vec<(String, Json)> = Vec::new();
            proof {
                assert(view_fields(e@) =~= Seq::<(Seq<char>, JsonV)>::empty());
            }
            e
        },
    };
    let ghost vf = view_fields(fs@);
    let ghost seg = path@[i as int]@;
    if i == path.len() - 1 {
        insert_field(&mut fs, copy_string(&path[i]), value);
        Json::Object(fs)
    } else {
        proof {
            lemma_view_fields(fs@);
            lemma_fields_index(vf, seg);
        }
        match field_index(&fs, path[i].as_str()) {
            Some(k) => {
                let (key, x) = fs.remove(k);
                let c = set_from(x, path, i + 1, value);
                let ghost cv = c@;
                fs.insert(k, (key, c));
                proof {
                    lemma_view_fields(fs@);
                    assert(view_fields(fs@) =~= vf.update(k as int, (seg, cv)));
                }
                Json::Object(fs)
            },
            None => {
                let c = set_from(Json::object(), path, i + 1, value);
                insert_field(&mut fs, copy_string(&path[i]), c);
                Json::Object(fs)
            },
        }
    }
}

/// Sets `path` to `value` in a JSON tree (see `set_path_spec`).
pub fn set_path(root: &mut Json, path: &Vec<String>, value: Json)
    requires
        path@.len() >= 1,
    ensures
        final(root)@ == set_path_spec(old(root)@, views(path@), value@),
{
    let mut cur = Json::Null;
    std::mem::swap(&mut cur, root);
    proof {
        assert(views(path@).subrange(0, path@.len() as int) =~= views(path@));
    }
    *root = set_from(cur, path, 0, value);
}

/// `root` with every `(path, value)` set in turn, left to right.
pub open spec fn apply_paths_spec(root: JsonV, ps: Seq<PathV>) -> JsonV
    decreases ps.len(),
{
    if ps.len() == 0 {
        root
    } else {
        set_path_spec(apply_paths_spec(root, ps.drop_last()), ps.last().0, ps.last().1)
    }
}

/// Merges rebuilt leaves onto a tree: each path is set in turn (replacing the
/// whole leaf there), and every other entry of the tree is kept.
pub fn apply_paths(root: &mut Json, paths: Vec<(Vec<String>, Json)>)
    requires
        forall|i: int| 0 <= i < paths@.len() ==> (#[trigger] paths@[i]).0@.len() >= 1,
    ensures
        final(root)@ == apply_paths_spec(old(root)@, paths_view(paths@)),
{
    let ghost pv = paths_view(paths@);
    let ghost start = root@;
    proof {
        assert(pv.take(0) =~= Seq::<PathV>::empty());
    }
    let mut i: usize = 0;
    while i < paths.len()
        invariant
            i <= paths@.len(),
            pv == paths_view(paths@),
            pv.len() == paths@.len(),
            forall|j: int| 0 <= j < paths@.len() ==> (#[trigger] paths@[j]).0@.len() >= 1,
            root@ == apply_paths_spec(start, pv.take(i as int)),
        decreases paths@.len() - i,
    {
        let value = paths[i].1.copy();
        set_path(root, &paths[i].0, value);
        proof {
            assert(pv.take(i + 1).drop_last() =~= pv.take(i as int));
            assert(pv.take(i + 1).last() == pv[i as int]);
            assert(pv[i as int] == (views(paths@[i as int].0@), paths@[i as int].1@));
        }
        i = i + 1;
    }
    proof {
        assert(pv.take(paths@.len() as int) =~= pv);
    }
}

/// What a read of `path` gives back after `set_path`: exactly the value set.
pub proof fn law_set_path_reads_back(root: JsonV, path: Seq<Seq<char>>, value: JsonV)
    requires
        wf_json(root),
        path.len() >= 1,
    ensures
        crate::ir::lookup_spec(set_path_spec(root, path, value), path) == Some(value),
        wf_json(value) ==> wf_json(set_path_spec(root, path, value)),
    decreases path.len(),
{
    let fs = match root {
        JsonV::Obj(f) => f,
        _ => Seq::empty(),
    };
    assert(keys_sorted(fs));
    if path.len() == 1 {
        lemma_fields_insert(fs, path[0], value);
        assert(path.drop_first() =~= Seq::<Seq<char>>::empty());
        assert(crate::ir::lookup_spec(value, path.drop_first()) == Some(value));
        lemma_insert_keeps_wf(fs, path[0], value);
    } else {
        let child = match fields_get(fs, path[0]) {
            Some(c) => c,
            None => JsonV::Obj(Seq::empty()),
        };
        lemma_get_wf(fs, path[0]);
        assert(wf_json(child));
        law_set_path_reads_back(child, path.drop_first(), value);
        let c2 = set_path_spec(child, path.drop_first(), value);
        lemma_fields_insert(fs, path[0], c2);
        assert(member(set_path_spec(root, path, value), path[0]) == Some(c2));
        if wf_json(value) {
            lemma_insert_keeps_wf(fs, path[0], c2);
        }
    }
}

/// A field read from a well-formed object is well-formed.
proof fn lemma_get_wf(fs: Seq<(Seq<char>, JsonV)>, k: Seq<char>)
    requires
        wf_json(JsonV::Obj(fs)),
    ensures
        fields_get(fs, k) matches Some(v) ==> wf_json(v),
{
    lemma_fields_index(fs, k);
    lemma_wf_fields(fs);
    if let Some(i) = fields_index(fs, k) {
        assert(wf_json(fs[i].1));
    }
}

/// Setting a well-formed value in a well-formed object keeps it well-formed.
proof fn lemma_insert_keeps_wf(fs: Seq<(Seq<char>, JsonV)>, k: Seq<char>, v: JsonV)
    requires
        wf_json(JsonV::Obj(fs)) || fs.len() == 0,
    ensures
        wf_json(v) ==> wf_json(JsonV::Obj(fields_insert(fs, k, v))),
{
    lemma_fields_index(fs, k);
    lemma_wf_fields(fs);
    let r = fields_insert(fs, k, v);
    lemma_wf_fields(r);
    if wf_json(v) {
        assert(keys_sorted(fs));
        lemma_fields_insert(fs, k, v);
        crate::json::lemma_insert_pos(fs, k);
        assert forall|i: int| 0 <= i < r.len() implies #[trigger] wf_json(r[i].1) by {
            match fields_index(fs, k) {
                Some(j) => {
                    if i != j {
                        assert(r[i] == fs[i]);
                    }
                },
                None => {
                    let p = crate::json::insert_pos(fs, k);
                    if i < p {
                        assert(r[i] == fs[i]);
                    } else if i > p {
                        assert(r[i] == fs[i - 1]);
                    }
                },
            }
        }
    }
}

/// The characters of `s`, each replaced by `f` of it.
pub open spec fn flat(s: Seq<char>, f: spec_fn(char) -> Seq<char>) -> Seq<char>
    decreases s.len(),
{
    if s.len() == 0 {
        Seq::empty()
    } else {
        f(s[0]) + flat(s.drop_first(), f)
    }
}

pub open spec fn amp() -> Seq<char> { seq!['&', 'a', 'm', 'p', ';'] }
pub open spec fn lt() -> Seq<char> { seq!['&', 'l', 't', ';'] }
pub open spec fn gt() -> Seq<char> { seq!['&', 'g', 't', ';'] }
pub open spec fn quot() -> Seq<char> { seq!['&', 'q', 'u', 'o', 't', ';'] }
pub open spec fn apos39() -> Seq<char> { seq!['&', '#', '3', '9', ';'] }
pub open spec fn apos() -> Seq<char> { seq!['&', 'a', 'p', 'o', 's', ';'] }

/// The XML escape of one character: `&`, `<`, `>` always, `"` in attributes.
pub open spec fn esc_char(c: char, attr: bool) -> Seq<char> {
    if c == '&' {
        amp()
    } else if c == '<' {
        lt()
    } else if c == '>' {
        gt()
    } else if attr && c == '"' {
        quot()
    } else {
        seq![c]
    }
}

/// `s` escaped for XML text (`attr == false`) or an attribute value.
pub open spec fn escape_spec(s: Seq<char>, attr: bool) -> Seq<char> {
    flat(s, |c: char| esc_char(c, attr))
}

/// `s[from..]` with every occurrence of `p` replaced by `r`, left to right and
/// without overlaps (`str::replace`).
pub open spec fn replace_from(s: Seq<char>, p: Seq<char>, r: Seq<char>, from: int) -> Seq<char>
    decreases s.len() - from,
{
    if p.len() == 0 || from < 0 || from > s.len() {
        Seq::empty()
    } else {
        match first_occurrence(s, p, from) {
            Some(i) => if from <= i && i + p.len() <= s.len() {
                s.subrange(from, i) + r + replace_from(s, p, r, i + p.len())
            } else {
                Seq::empty()
            },
            None => s.subrange(from, s.len() as int),
        }
    }
}

pub open spec fn replace_all_spec(s: Seq<char>, p: Seq<char>, r: Seq<char>) -> Seq<char> {
    replace_from(s, p, r, 0)
}

/// The entities decoded in the order the exporter's reader applies them:
/// `&lt;`, `&gt;`, `&quot;`, `&#39;`, `&apos;`, then `&amp;`.
pub open spec fn unescape_spec(s: Seq<char>) -> Seq<char> {
    let s1 = replace_all_spec(s, lt(), seq!['<']);
    let s2 = replace_all_spec(s1, gt(), seq!['>']);
    let s3 = replace_all_spec(s2, quot(), seq!['"']);
    let s4 = replace_all_spec(s3, apos39(), seq!['\'']);
    let s5 = replace_all_spec(s4, apos(), seq!['\'']);
    replace_all_spec(s5, amp(), seq!['&'])
}

pub proof fn lemma_flat_push(s: Seq<char>, c: char, f: spec_fn(char) -> Seq<char>)
    ensures
        flat(s.push(c), f) == flat(s, f) + f(c),
    decreases s.len(),
{
    if s.len() == 0 {
        assert(s.push(c).drop_first() =~= Seq::<char>::empty());
        assert(s.push(c)[0] == c);
        assert(flat(s.push(c).drop_first(), f) =~= Seq::<char>::empty());
        assert(flat(s.push(c), f) =~= f(c));
    } else {
        assert(s.push(c).drop_first() =~= s.drop_first().push(c));
        lemma_flat_push(s.drop_first(), c, f);
        assert(flat(s.push(c), f) =~= flat(s, f) + f(c));
    }
}

proof fn lemma_flat_ident(s: Seq<char>)
    ensures
        flat(s, |c: char| seq![c]) == s,
    decreases s.len(),
{
    if s.len() > 0 {
        lemma_flat_ident(s.drop_first());
        assert(flat(s, |c: char| seq![c]) =~= s);
    }
}

proof fn lemma_fo_shift(a: Seq<char>, b: Seq<char>, p: Seq<char>, k: int)
    requires
        0 <= k,
    ensures
        first_occurrence(a + b, p, a.len() + k) == match first_occurrence(b, p, k) {
            Some(i) => Some(a.len() + i),
            None => None,
        },
    decreases b.len() + 1 - k,
{
    let ab = a + b;
    if k + p.len() <= b.len() {
        assert(ab.subrange(a.len() + k, a.len() + k + p.len()) =~= b.subrange(k, k + p.len()));
        if !occurs_at(b, p, k) {
            lemma_fo_shift(a, b, p, k + 1);
        }
    }
}

proof fn lemma_rf_shift(a: Seq<char>, b: Seq<char>, p: Seq<char>, r: Seq<char>, k: int)
    requires
        0 <= k <= b.len(),
        p.len() > 0,
    ensures
        replace_from(a + b, p, r, a.len() + k) == replace_from(b, p, r, k),
    decreases b.len() - k,
{
    let ab = a + b;
    lemma_fo_shift(a, b, p, k);
    lemma_first_occurrence(b, p, k);
    match first_occurrence(b, p, k) {
        Some(i) => {
            assert(ab.subrange(a.len() + k, a.len() + i) =~= b.subrange(k, i));
            lemma_rf_shift(a, b, p, r, i + p.len());
        },
        None => {
            assert(ab.subrange(a.len() + k, ab.len() as int) =~= b.subrange(k, b.len() as int));
        },
    }
}

proof fn lemma_rf_skip(s: Seq<char>, p: Seq<char>, r: Seq<char>, from: int, mid: int)
    requires
        0 <= from <= mid <= s.len(),
        p.len() > 0,
        forall|j: int| from <= j < mid ==> !occurs_at(s, p, j),
    ensures
        replace_from(s, p, r, from) == s.subrange(from, mid) + replace_from(s, p, r, mid),
{
    lemma_first_occurrence(s, p, from);
    lemma_first_occurrence(s, p, mid);
    match first_occurrence(s, p, from) {
        Some(i) => {
            assert(first_occurrence(s, p, mid) == Some(i)) by {
                if let Some(i2) = first_occurrence(s, p, mid) {
                    if i2 < i {
                    }
                }
            }
            assert(s.subrange(from, i) =~= s.subrange(from, mid) + s.subrange(mid, i));
        },
        None => {
            assert(first_occurrence(s, p, mid) is None);
            assert(s.subrange(from, s.len() as int) =~= s.subrange(from, mid) + s.subrange(mid, s.len() as int));
        },
    }
}

/// `f` only ever puts `&` at the start of a block, and a block that starts
/// with `&` but is not `p` differs from `p` within their common length.
pub open spec fn blocks_ok(f: spec_fn(char) -> Seq<char>, p: Seq<char>) -> bool {
    &&& p.len() > 0
    &&& p[0] == '&'
    &&& forall|c: char, i: int| 0 < i < f(c).len() ==> #[trigger] f(c)[i] != '&'
    &&& forall|c: char|
        #![trigger f(c)]
        f(c) != p && f(c).len() > 0 && f(c)[0] == '&' ==> exists|k: int|
            0 <= k < f(c).len() && k < p.len() && f(c)[k] != p[k]
}

pub open spec fn swap_block(f: spec_fn(char) -> Seq<char>, p: Seq<char>, r: Seq<char>) -> spec_fn(char) -> Seq<char> {
    |c: char| if f(c) == p { r } else { f(c) }
}

/// Replacing `p` in a block-built string replaces exactly the blocks equal to `p`.
proof fn lemma_replace_flat(s: Seq<char>, f: spec_fn(char) -> Seq<char>, p: Seq<char>, r: Seq<char>)
    requires
        blocks_ok(f, p),
    ensures
        replace_from(flat(s, f), p, r, 0) == flat(s, swap_block(f, p, r)),
    decreases s.len(),
{
    let g = swap_block(f, p, r);
    if s.len() == 0 {
        assert(flat(s, f) =~= Seq::<char>::empty());
        assert(first_occurrence(flat(s, f), p, 0) is None);
        assert(flat(s, f).subrange(0, 0) =~= Seq::<char>::empty());
    } else {
        let c = s[0];
        let t = s.drop_first();
        let fc = f(c);
        let ft = flat(t, f);
        let big = fc + ft;
        assert(flat(s, f) == big);
        lemma_replace_flat(t, f, p, r);
        if fc == p {
            assert(occurs_at(big, p, 0)) by {
                assert(big.subrange(0, p.len() as int) =~= p);
            }
            assert(first_occurrence(big, p, 0) == Some(0int));
            lemma_rf_shift(fc, ft, p, r, 0);
            assert(big.subrange(0, 0) =~= Seq::<char>::empty());
            assert(replace_from(big, p, r, 0) =~= r + replace_from(ft, p, r, 0));
        } else {
            assert forall|j: int| 0 <= j < fc.len() implies !occurs_at(big, p, j) by {
                if occurs_at(big, p, j) {
                    assert(big.subrange(j, j + p.len())[0] == p[0]);
                    assert(big[j] == '&');
                    assert(big[j] == fc[j]);
                    if j > 0 {
                        assert(fc[j] != '&');
                    } else {
                        let k = choose|k: int| 0 <= k < fc.len() && k < p.len() && fc[k] != p[k];
                        assert(big.subrange(0, p.len() as int)[k] == p[k]);
                    }
                }
            }
            lemma_rf_skip(big, p, r, 0, fc.len() as int);
            assert(big.subrange(0, fc.len() as int) =~= fc);
            lemma_rf_shift(fc, ft, p, r, 0);
        }
        assert(flat(s, g) == g(c) + flat(t, g));
    }
}

pub open spec fn esc1(attr: bool) -> spec_fn(char) -> Seq<char> {
    |c: char| if c == '<' { seq!['<'] } else { esc_char(c, attr) }
}

pub open spec fn esc2(attr: bool) -> spec_fn(char) -> Seq<char> {
    |c: char| if c == '<' || c == '>' { seq![c] } else { esc_char(c, attr) }
}

pub open spec fn esc3() -> spec_fn(char) -> Seq<char> {
    |c: char| if c == '&' { amp() } else { seq![c] }
}

/// Decoding undoes escaping, for text and for attribute values alike.
pub proof fn law_unescape_inverts_escape(s: Seq<char>, attr: bool)
    ensures
        unescape_spec(escape_spec(s, attr)) == s,
{
    let e0 = |c: char| esc_char(c, attr);
    assert forall|c: char, i: int| 0 < i < e0(c).len() implies #[trigger] e0(c)[i] != '&' by {}
    assert(blocks_ok(e0, lt())) by {
        assert forall|c: char| #![trigger e0(c)] e0(c) != lt() && e0(c).len() > 0 && e0(c)[0] == '&' implies exists|k: int|
            0 <= k < e0(c).len() && k < lt().len() && e0(c)[k] != lt()[k] by {
            assert(e0(c)[1] != lt()[1]);
        }
    }
    lemma_replace_flat(s, e0, lt(), seq!['<']);
    assert(swap_block(e0, lt(), seq!['<']) =~= esc1(attr));
    let e1 = esc1(attr);
    assert forall|c: char, i: int| 0 < i < e1(c).len() implies #[trigger] e1(c)[i] != '&' by {}
    assert(blocks_ok(e1, gt())) by {
        assert forall|c: char| #![trigger e1(c)] e1(c) != gt() && e1(c).len() > 0 && e1(c)[0] == '&' implies exists|k: int|
            0 <= k < e1(c).len() && k < gt().len() && e1(c)[k] != gt()[k] by {
            assert(e1(c)[1] != gt()[1]);
        }
    }
    lemma_replace_flat(s, e1, gt(), seq!['>']);
    assert(swap_block(e1, gt(), seq!['>']) =~= esc2(attr));
    let e2 = esc2(attr);
    assert forall|c: char, i: int| 0 < i < e2(c).len() implies #[trigger] e2(c)[i] != '&' by {}
    assert(blocks_ok(e2, quot())) by {
        assert forall|c: char| #![trigger e2(c)] e2(c) != quot() && e2(c).len() > 0 && e2(c)[0] == '&' implies exists|k: int|
            0 <= k < e2(c).len() && k < quot().len() && e2(c)[k] != quot()[k] by {
            assert(e2(c)[1] != quot()[1]);
        }
    }
    lemma_replace_flat(s, e2, quot(), seq!['"']);
    assert(swap_block(e2, quot(), seq!['"']) =~= esc3());
    let e3 = esc3();
    assert forall|c: char, i: int| 0 < i < e3(c).len() implies #[trigger] e3(c)[i] != '&' by {}
    assert(blocks_ok(e3, apos39())) by {
        assert forall|c: char| #![trigger e3(c)] e3(c) != apos39() && e3(c).len() > 0 && e3(c)[0] == '&' implies exists|k: int|
            0 <= k < e3(c).len() && k < apos39().len() && e3(c)[k] != apos39()[k] by {
            assert(e3(c)[1] != apos39()[1]);
        }
    }
    lemma_replace_flat(s, e3, apos39(), seq!['\'']);
    assert(swap_block(e3, apos39(), seq!['\'']) =~= e3) by {
        assert forall|c: char| #![trigger e3(c)] e3(c) != apos39() by {
            if c == '&' {
                assert(e3(c)[1] != apos39()[1]);
            } else {
                assert(e3(c).len() != apos39().len());
            }
        }
    }
    assert(blocks_ok(e3, apos())) by {
        assert forall|c: char| #![trigger e3(c)] e3(c) != apos() && e3(c).len() > 0 && e3(c)[0] == '&' implies exists|k: int|
            0 <= k < e3(c).len() && k < apos().len() && e3(c)[k] != apos()[k] by {
            assert(e3(c)[2] != apos()[2]);
        }
    }
    lemma_replace_flat(s, e3, apos(), seq!['\'']);
    assert(swap_block(e3, apos(), seq!['\'']) =~= e3) by {
        assert forall|c: char| #![trigger e3(c)] e3(c) != apos() by {
            if c == '&' {
                assert(e3(c)[2] != apos()[2]);
            } else {
                assert(e3(c).len() != apos().len());
            }
        }
    }
    assert(blocks_ok(e3, amp())) by {
        assert forall|c: char| #![trigger e3(c)] e3(c) != amp() && e3(c).len() > 0 && e3(c)[0] == '&' implies exists|k: int|
            0 <= k < e3(c).len() && k < amp().len() && e3(c)[k] != amp()[k] by {}
    }
    lemma_replace_flat(s, e3, amp(), seq!['&']);
    assert(swap_block(e3, amp(), seq!['&']) =~= (|c: char| seq![c]));
    lemma_flat_ident(s);
}

/// Appends `s[a..b]` to `out`.
fn append_range(out: &mut Vec<char>, s: &Vec<char>, a: usize, b: usize)
    requires
        a <= b <= s@.len(),
    ensures
        final(out)@ == old(out)@ + s@.subrange(a as int, b as int),
{
    let mut j = a;
    while j < b
        invariant
            a <= j <= b,
            b <= s@.len(),
            out@ == old(out)@ + s@.subrange(a as int, j as int),
        decreases b - j,
    {
        out.push(s[j]);
        proof {
            assert(s@.subrange(a as int, j + 1) =~= s@.subrange(a as int, j as int).push(s@[j as int]));
        }
        j = j + 1;
    }
}

/// `s` with every occurrence of `p` replaced by `r` (see `replace_all_spec`).
fn replace_all(s: &Vec<char>, p: &Vec<char>, r: &Vec<char>) -> (out: Vec<char>)
    requires
        p@.len() > 0,
    ensures
        out@ == replace_all_spec(s@, p@, r@),
{
    let mut out: Vec<char> = Vec::new();
    let mut from: usize = 0;
    let mut done = false;
    while !done
        invariant
            from <= s@.len(),
            p@.len() > 0,
            !done ==> replace_from(s@, p@, r@, 0) == out@ + replace_from(s@, p@, r@, from as int),
            done ==> replace_from(s@, p@, r@, 0) == out@,
        decreases s@.len() - from, if done { 0int } else { 1int },
    {
        proof {
            lemma_first_occurrence(s@, p@, from as int);
        }
        match find_from(s, p, from) {
            Some(i) => {
                let plen = p.len();
                let slen = s.len();
                proof {
                    assert(occurs_at(s@, p@, i as int));
                    assert(i + plen <= slen);
                }
                let ghost before = out@;
                append_range(&mut out, s, from, i);
                append_range(&mut out, r, 0, r.len());
                proof {
                    assert(r@.subrange(0, r@.len() as int) =~= r@);
                    assert(out@ =~= before + (s@.subrange(from as int, i as int) + r@));
                }
                from = i + plen;
            },
            None => {
                append_range(&mut out, s, from, s.len());
                proof {
                    assert(replace_from(s@, p@, r@, from as int) == s@.subrange(from as int, s@.len() as int));
                }
                done = true;
            },
        }
    }
    out
}

/// `s` escaped for XML (see `escape_spec`).
fn escape(s: &str, attr: bool) -> (r: String)
    ensures
        r@ == escape_spec(s@, attr),
{
    let v = crate::text::chars_of(s);
    let ghost f = |c: char| esc_char(c, attr);
    let mut out = String::new();
    let mut i: usize = 0;
    proof {
        assert(s@.take(0) =~= Seq::<char>::empty());
        assert(out@ =~= flat(s@.take(0), f));
    }
    while i < v.len()
        invariant
            i <= v@.len(),
            v@ == s@,
            f == (|c: char| esc_char(c, attr)),
            out@ == flat(s@.take(i as int), f),
        decreases v@.len() - i,
    {
        let c = v[i];
        proof {
            reveal_strlit("&amp;");
            reveal_strlit("&lt;");
            reveal_strlit("&gt;");
            reveal_strlit("&quot;");
            assert(s@.take(i + 1) =~= s@.take(i as int).push(c));
            lemma_flat_push(s@.take(i as int), c, f);
        }
        if c == '&' {
            crate::text::push_str(&mut out, "&amp;");
            proof { assert("&amp;"@ =~= amp()); }
        } else if c == '<' {
            crate::text::push_str(&mut out, "&lt;");
            proof { assert("&lt;"@ =~= lt()); }
        } else if c == '>' {
            crate::text::push_str(&mut out, "&gt;");
            proof { assert("&gt;"@ =~= gt()); }
        } else if attr && c == '"' {
            crate::text::push_str(&mut out, "&quot;");
            proof { assert("&quot;"@ =~= quot()); }
        } else {
            crate::text::push_char(&mut out, c);
        }
        i = i + 1;
    }
    proof {
        assert(s@.take(v@.len() as int) =~= s@);
    }
    out
}

/// `s` escaped for XML text: `&`, `<` and `>` become entities.
pub fn xml_text(s: &str) -> (r: String)
    ensures
        r@ == escape_spec(s@, false),
{
    escape(s, false)
}

/// `s` escaped for an XML attribute value: as text, and `"` too.
pub fn xml_attr(s: &str) -> (r: String)
    ensures
        r@ == escape_spec(s@, true),
{
    escape(s, true)
}

/// The entities of `s` decoded (see `unescape_spec`).
pub fn xml_unescape(s: &str) -> (r: String)
    ensures
        r@ == unescape_spec(s@),
{
    proof {
        reveal_strlit("&lt;");
        reveal_strlit("&gt;");
        reveal_strlit("&quot;");
        reveal_strlit("&#39;");
        reveal_strlit("&apos;");
        reveal_strlit("&amp;");
        reveal_strlit("<");
        reveal_strlit(">");
        reveal_strlit("\"");
        reveal_strlit("'");
        reveal_strlit("&");
    }
    let v0 = crate::text::chars_of(s);
    let v1 = replace_all(&v0, &crate::text::chars_of("&lt;"), &crate::text::chars_of("<"));
    let v2 = replace_all(&v1, &crate::text::chars_of("&gt;"), &crate::text::chars_of(">"));
    let v3 = replace_all(&v2, &crate::text::chars_of("&quot;"), &crate::text::chars_of("\""));
    let v4 = replace_all(&v3, &crate::text::chars_of("&#39;"), &crate::text::chars_of("'"));
    let v5 = replace_all(&v4, &crate::text::chars_of("&apos;"), &crate::text::chars_of("'"));
    let v6 = replace_all(&v5, &crate::text::chars_of("&amp;"), &crate::text::chars_of("&"));
    proof {
        assert("&lt;"@ =~= lt());
        assert("&gt;"@ =~= gt());
        assert("&quot;"@ =~= quot());
        assert("&#39;"@ =~= apos39());
        assert("&apos;"@ =~= apos());
        assert("&amp;"@ =~= amp());
        assert("<"@ =~= seq!['<']);
        assert(">"@ =~= seq!['>']);
        assert("\""@ =~= seq!['"']);
        assert("'"@ =~= seq!['\'']);
        assert("&"@ =~= seq!['&']);
    }
    crate::text::string_of(&v6)
}

/// One unit as XLIFF.
pub open spec fn unit_xliff(u: UnitV) -> Seq<char> {
    "      <trans-unit id=\""@ + escape_spec(u.0, true) + "\">\n        <source>"@ + escape_spec(u.1, false)
        + "</source>\n        <target>"@ + escape_spec(u.2, false) + "</target>\n      </trans-unit>\n"@
}

pub open spec fn units_xliff(us: Seq<UnitV>) -> Seq<char>
    decreases us.len(),
{
    if us.len() == 0 {
        Seq::empty()
    } else {
        units_xliff(us.drop_last()) + unit_xliff(us.last())
    }
}

/// The XLIFF 1.2 document of `units`.
pub open spec fn xliff_spec(canon: Seq<char>, target: Seq<char>, units: Seq<UnitV>) -> Seq<char> {
    "<?xml version=\"1.0\" encoding=\"UTF-8\"?>\n<xliff version=\"1.2\">\n"@ + "  <file original=\"stele\" source-language=\""@
        + canon + "\" target-language=\""@ + target + "\" datatype=\"plaintext\">\n    <body>\n"@ + units_xliff(units)
        + "    </body>\n  </file>\n</xliff>\n"@
}

/// The units as an XLIFF 1.2 document (see `xliff_spec`).
pub fn to_xliff(canonical_locale: &str, target_locale: &str, units: &Vec<Unit>) -> (r: String)
    ensures
        r@ == xliff_spec(canonical_locale@, target_locale@, units_view(units@)),
{
    let mut s = String::new();
    crate::text::push_str(&mut s, "<?xml version=\"1.0\" encoding=\"UTF-8\"?>\n<xliff version=\"1.2\">\n");
    crate::text::push_str(&mut s, "  <file original=\"stele\" source-language=\"");
    crate::text::push_str(&mut s, canonical_locale);
    crate::text::push_str(&mut s, "\" target-language=\"");
    crate::text::push_str(&mut s, target_locale);
    crate::text::push_str(&mut s, "\" datatype=\"plaintext\">\n    <body>\n");
    let ghost head = s@;
    let ghost uv = units_view(units@);
    proof {
        assert(uv.take(0) =~= Seq::<UnitV>::empty());
        assert(s@ =~= head + units_xliff(uv.take(0)));
    }
    let mut i: usize = 0;
    while i < units.len()
        invariant
            i <= units@.len(),
            uv == units_view(units@),
            s@ == head + units_xliff(uv.take(i as int)),
        decreases units@.len() - i,
    {
        let u = &units[i];
        proof {
            assert(uv.take(i + 1).drop_last() =~= uv.take(i as int));
            assert(uv.take(i + 1).last() == unit_view(*u));
        }
        let ghost before = s@;
        crate::text::push_str(&mut s, "      <trans-unit id=\"");
        let a = xml_attr(u.id.as_str());
        crate::text::push_str(&mut s, a.as_str());
        crate::text::push_str(&mut s, "\">\n        <source>");
        let b = xml_text(u.source.as_str());
        crate::text::push_str(&mut s, b.as_str());
        crate::text::push_str(&mut s, "</source>\n        <target>");
        let c = xml_text(u.target.as_str());
        crate::text::push_str(&mut s, c.as_str());
        crate::text::push_str(&mut s, "</target>\n      </trans-unit>\n");
        proof {
            assert(s@ =~= before + unit_xliff(unit_view(*u)));
        }
        i = i + 1;
    }
    crate::text::push_str(&mut s, "    </body>\n  </file>\n</xliff>\n");
    proof {
        assert(uv.take(units@.len() as int) =~= uv);
    }
    s
}

/// A regex word boundary at position `i` of `s` (`\b`, Unicode word characters).
pub open spec fn boundary(s: Seq<char>, i: int) -> bool {
    (0 < i <= s.len() && word_char(s[i - 1])) != (0 <= i < s.len() && word_char(s[i]))
}

/// The first position at or after `from` holding `ch`.
pub open spec fn first_char(s: Seq<char>, ch: char, from: int) -> Option<int>
    decreases s.len() - from,
{
    if from < 0 || from >= s.len() {
        None
    } else if s[from] == ch {
        Some(from)
    } else {
        first_char(s, ch, from + 1)
    }
}

proof fn lemma_first_char(s: Seq<char>, ch: char, from: int)
    requires
        0 <= from,
    ensures
        first_char(s, ch, from) matches Some(k) ==> from <= k < s.len() && s[k] == ch,
    decreases s.len() - from,
{
    if from < s.len() && s[from] != ch {
        lemma_first_char(s, ch, from + 1);
    }
}

/// Where the `[^>]*` run starting at `from` stops: the first `>`, or the end.
pub open spec fn run_end(s: Seq<char>, from: int) -> int {
    match first_char(s, '>', from) {
        Some(k) => k,
        None => s.len() as int,
    }
}

pub open spec fn open_tu() -> Seq<char> { "<trans-unit"@ }
pub open spec fn close_tu() -> Seq<char> { "</trans-unit>"@ }
pub open spec fn id_eq() -> Seq<char> { "id=\""@ }
pub open spec fn lang_eq() -> Seq<char> { "target-language=\""@ }

/// After `id="` at `q`: the end of the id, then the start and end of the body.
pub open spec fn tu_rest(s: Seq<char>, q: int) -> Option<(int, int, int)> {
    match first_char(s, '"', q + 4) {
        None => None,
        Some(e) => match first_char(s, '>', e + 1) {
            None => None,
            Some(g) => match first_occurrence(s, close_tu(), g + 1) {
                None => None,
                Some(t) => Some((e, g + 1, t)),
            },
        },
    }
}

/// The `<trans-unit ...>` match that tries `id="` at `q` first and then at
/// each earlier position down to `lo` (the greedy `[^>]*` backing off):
/// id start, id end, body start, body end.
pub open spec fn tu_scan(s: Seq<char>, lo: int, q: int) -> Option<(int, int, int, int)>
    decreases q - lo + 1,
{
    if q < lo {
        None
    } else if occurs_at(s, id_eq(), q) && boundary(s, q) && tu_rest(s, q) is Some {
        let r = tu_rest(s, q).unwrap();
        Some((q + 4, r.0, r.1, r.2))
    } else {
        tu_scan(s, lo, q - 1)
    }
}

/// The `<trans-unit>` element matched at `i`, if one starts there.
pub open spec fn tu_match_at(s: Seq<char>, i: int) -> Option<(int, int, int, int)> {
    if occurs_at(s, open_tu(), i) && boundary(s, i + 11) {
        tu_scan(s, i + 11, run_end(s, i + 11))
    } else {
        None
    }
}

/// Every `<trans-unit>` element from `from` on, leftmost first and without
/// overlaps: the raw id and the raw body of each.
pub open spec fn tu_all(s: Seq<char>, from: int) -> Seq<(Seq<char>, Seq<char>)>
    decreases s.len() + 1 - from,
{
    if from < 0 || from > s.len() {
        Seq::empty()
    } else {
        match tu_match_at(s, from) {
            Some(m) => if from < m.3 + 13 <= s.len() {
                seq![(s.subrange(m.0, m.1), s.subrange(m.2, m.3))] + tu_all(s, m.3 + 13)
            } else {
                Seq::empty()
            },
            None => tu_all(s, from + 1),
        }
    }
}

/// The body of an element `open ...>body close` that starts at `i`.
pub open spec fn cap_at(x: Seq<char>, open: Seq<char>, close: Seq<char>, i: int) -> Option<(int, int)> {
    if occurs_at(x, open, i) && boundary(x, i + open.len()) {
        match first_char(x, '>', i + open.len()) {
            Some(g) => match first_occurrence(x, close, g + 1) {
                Some(c) => Some((g + 1, c)),
                None => None,
            },
            None => None,
        }
    } else {
        None
    }
}

/// The body of the first such element at or after `from`.
pub open spec fn first_cap(x: Seq<char>, open: Seq<char>, close: Seq<char>, from: int) -> Option<Seq<char>>
    decreases x.len() + 1 - from,
{
    if from < 0 || from > x.len() {
        None
    } else {
        match cap_at(x, open, close, from) {
            Some(m) => Some(x.subrange(m.0, m.1)),
            None => first_cap(x, open, close, from + 1),
        }
    }
}

/// The first `target-language="..."` value at or after `from`.
pub open spec fn first_lang(s: Seq<char>, from: int) -> Option<Seq<char>>
    decreases s.len() + 1 - from,
{
    if from < 0 || from > s.len() {
        None
    } else if occurs_at(s, lang_eq(), from) && first_char(s, '"', from + 17) is Some {
        Some(s.subrange(from + 17, first_char(s, '"', from + 17).unwrap()))
    } else {
        first_lang(s, from + 1)
    }
}

pub open spec fn opt_text(o: Option<Seq<char>>) -> Seq<char> {
    match o {
        Some(t) => unescape_spec(t),
        None => Seq::empty(),
    }
}

/// The units read from the raw elements: ids and the first `<source>` and
/// `<target>` bodies decoded, elements with an empty id skipped.
pub open spec fn read_units(tus: Seq<(Seq<char>, Seq<char>)>) -> Seq<UnitV>
    decreases tus.len(),
{
    if tus.len() == 0 {
        Seq::empty()
    } else {
        let prev = read_units(tus.drop_last());
        let (raw, inner) = tus.last();
        let id = unescape_spec(raw);
        if id.len() == 0 {
            prev
        } else {
            prev.push((
                id,
                opt_text(first_cap(inner, "<source"@, "</source>"@, 0)),
                opt_text(first_cap(inner, "<target"@, "</target>"@, 0)),
            ))
        }
    }
}

/// What `from_xliff` reads: the target language (empty when absent) and the units.
pub open spec fn from_xliff_spec(s: Seq<char>) -> (Seq<char>, Seq<UnitV>) {
    (
        match first_lang(s, 0) {
            Some(l) => l,
            None => Seq::empty(),
        },
        read_units(tu_all(s, 0)),
    )
}

fn first_char_exec(v: &Vec<char>, ch: char, from: usize) -> (r: Option<usize>)
    ensures
        match first_char(v@, ch, from as int) {
            Some(k) => r == Some(k as usize),
            None => r is None,
        },
{
    let mut i = from;
    while i < v.len()
        invariant
            from <= i,
            first_char(v@, ch, from as int) == first_char(v@, ch, i as int),
        decreases v@.len() - i,
    {
        if v[i] == ch {
            return Some(i);
        }
        i = i + 1;
    }
    None
}

fn boundary_exec(v: &Vec<char>, i: usize) -> (r: bool)
    ensures
        r == boundary(v@, i as int),
{
    let before = i > 0 && i <= v.len() && crate::placeholder::is_word_char(v[i - 1]);
    let after = i < v.len() && crate::placeholder::is_word_char(v[i]);
    before != after
}

/// The `<trans-unit>` element matched at `i` (see `tu_match_at`).
fn tu_match_exec(v: &Vec<char>, i: usize, open: &Vec<char>, close: &Vec<char>, ideq: &Vec<char>) -> (r: Option<(usize, usize, usize, usize)>)
    requires
        open@ == open_tu(),
        close@ == close_tu(),
        ideq@ == id_eq(),
        i <= v@.len(),
    ensures
        match tu_match_at(v@, i as int) {
            Some(m) => r matches Some(x) && x.0 == m.0 && x.1 == m.1 && x.2 == m.2 && x.3 == m.3
                && i <= m.0 <= m.1 && m.1 < m.2 <= m.3 && m.3 + 13 <= v@.len(),
            None => r is None,
        },
{
    proof {
        reveal_strlit("<trans-unit");
        reveal_strlit("</trans-unit>");
        reveal_strlit("id=\"");
        assert(open@.len() == 11);
        assert(close@.len() == 13);
        assert(ideq@.len() == 4);
    }
    if !crate::text::starts_at(v, open, i) {
        return None;
    }
    let olen = open.len();
    let vlen = v.len();
    proof {
        assert(i + olen <= vlen);
    }
    let lo = i + olen;
    if !boundary_exec(v, lo) {
        return None;
    }
    proof {
        lemma_first_char(v@, '>', lo as int);
    }
    let hi = match first_char_exec(v, '>', lo) {
        Some(k) => k,
        None => v.len(),
    };
    let mut q = hi;
    loop
        invariant
            lo <= v@.len(),
            lo <= hi <= v@.len(),
            q <= hi,
            lo <= q + 1,
            i + 11 == lo,
            ideq@ == id_eq(),
            ideq@.len() == 4,
            close@ == close_tu(),
            close@.len() == 13,
            tu_match_at(v@, i as int) == tu_scan(v@, lo as int, q as int),
        decreases q + 1 - lo,
    {
        if q < lo {
            return None;
        }
        if crate::text::starts_at(v, ideq, q) && boundary_exec(v, q) {
            let ilen = ideq.len();
            let vlen2 = v.len();
            proof {
                assert(q + ilen <= vlen2);
                lemma_first_char(v@, '"', q + 4);
            }
            match first_char_exec(v, '"', q + 4) {
                Some(e) => {
                    proof {
                        lemma_first_char(v@, '>', e + 1);
                    }
                    match first_char_exec(v, '>', e + 1) {
                        Some(g) => {
                            proof {
                                lemma_first_occurrence(v@, close@, g + 1);
                            }
                            match crate::text::find_from(v, close, g + 1) {
                                Some(t) => {
                                    return Some((q + 4, e, g + 1, t));
                                },
                                None => {},
                            }
                        },
                        None => {},
                    }
                },
                None => {},
            }
        }
        if q == lo {
            proof {
                assert(tu_scan(v@, lo as int, q - 1) is None);
            }
            return None;
        }
        q = q - 1;
    }
}

/// The body of the first `open ...>body close` element of `x` (see `first_cap`).
fn first_cap_exec(x: &Vec<char>, open: &Vec<char>, close: &Vec<char>) -> (r: Option<Vec<char>>)
    ensures
        match first_cap(x@, open@, close@, 0) {
            Some(b) => r matches Some(y) && y@ == b,
            None => r is None,
        },
{
    let mut i: usize = 0;
    while i <= x.len()
        invariant
            first_cap(x@, open@, close@, 0) == first_cap(x@, open@, close@, i as int),
        decreases x@.len() + 1 - i,
    {
        if crate::text::starts_at(x, open, i) {
            let olen = open.len();
            let xlen = x.len();
            proof {
                assert(i + olen <= xlen);
            }
            if boundary_exec(x, i + olen) {
                proof {
                    lemma_first_char(x@, '>', i + open@.len());
                }
                match first_char_exec(x, '>', i + olen) {
                    Some(g) => {
                        proof {
                            lemma_first_occurrence(x@, close@, g + 1);
                        }
                        match crate::text::find_from(x, close, g + 1) {
                            Some(c) => {
                                return Some(crate::text::subchars(x, g + 1, c));
                            },
                            None => {},
                        }
                    },
                    None => {},
                }
            }
        }
        if i == x.len() {
            proof {
                assert(first_cap(x@, open@, close@, i + 1) is None);
            }
            return None;
        }
        i = i + 1;
    }
    None
}

/// The first `target-language="..."` value (see `first_lang`).
fn first_lang_exec(v: &Vec<char>) -> (r: Option<Vec<char>>)
    ensures
        match first_lang(v@, 0) {
            Some(b) => r matches Some(y) && y@ == b,
            None => r is None,
        },
{
    let p = crate::text::chars_of("target-language=\"");
    proof {
        reveal_strlit("target-language=\"");
    }
    let mut i: usize = 0;
    while i <= v.len()
        invariant
            p@ == lang_eq(),
            p@.len() == 17,
            first_lang(v@, 0) == first_lang(v@, i as int),
        decreases v@.len() + 1 - i,
    {
        if crate::text::starts_at(v, &p, i) {
            proof {
                lemma_first_char(v@, '"', i + 17);
            }
            match first_char_exec(v, '"', i + 17) {
                Some(e) => {
                    return Some(crate::text::subchars(v, i + 17, e));
                },
                None => {},
            }
        }
        if i == v.len() {
            proof {
                assert(first_lang(v@, i + 1) is None);
            }
            return None;
        }
        i = i + 1;
    }
    None
}

/// Reads XLIFF 1.2 (as written by `to_xliff`, or a translation tool's round
/// trip with literal-text placeholders): the target language and the units
/// (see `from_xliff_spec`).
pub fn from_xliff(text: &str) -> (r: (String, Vec<Unit>))
    ensures
        r.0@ == from_xliff_spec(text@).0,
        units_view(r.1@) == from_xliff_spec(text@).1,
{
    let v = crate::text::chars_of(text);
    let lang = match first_lang_exec(&v) {
        Some(l) => crate::text::string_of(&l),
        None => String::new(),
    };
    let open = crate::text::chars_of("<trans-unit");
    let close = crate::text::chars_of("</trans-unit>");
    let ideq = crate::text::chars_of("id=\"");
    let so = crate::text::chars_of("<source");
    let sc = crate::text::chars_of("</source>");
    let to = crate::text::chars_of("<target");
    let tc = crate::text::chars_of("</target>");
    let ghost all = tu_all(v@, 0);
    let mut units: Vec<Unit> = Vec::new();
    let ghost mut seen: Seq<(Seq<char>, Seq<char>)> = Seq::empty();
    proof {
        assert(units_view(units@) =~= read_units(seen));
        assert(all =~= seen + tu_all(v@, 0));
    }
    let mut from: usize = 0;
    while from <= v.len()
        invariant
            v@ == text@,
            lang@ == from_xliff_spec(text@).0,
            open@ == open_tu(),
            close@ == close_tu(),
            ideq@ == id_eq(),
            so@ == "<source"@,
            sc@ == "</source>"@,
            to@ == "<target"@,
            tc@ == "</target>"@,
            all == tu_all(v@, 0),
            all == seen + tu_all(v@, from as int),
            units_view(units@) == read_units(seen),
        decreases v@.len() + 1 - from,
    {
        match tu_match_exec(&v, from, &open, &close, &ideq) {
            Some((a, e, b, t)) => {
                let raw = crate::text::subchars(&v, a, e);
                let inner = crate::text::subchars(&v, b, t);
                let id = xml_unescape(crate::text::string_of(&raw).as_str());
                let ghost item = (v@.subrange(a as int, e as int), v@.subrange(b as int, t as int));
                proof {
                    assert(tu_all(v@, from as int) == seq![item] + tu_all(v@, t + 13));
                    assert(seen.push(item).drop_last() =~= seen);
                    assert(all =~= seen.push(item) + tu_all(v@, t + 13));
                    reveal_strlit("");
                }
                if !crate::text::str_eq(id.as_str(), "") {
                    let source = match first_cap_exec(&inner, &so, &sc) {
                        Some(x) => xml_unescape(crate::text::string_of(&x).as_str()),
                        None => String::new(),
                    };
                    let target = match first_cap_exec(&inner, &to, &tc) {
                        Some(x) => xml_unescape(crate::text::string_of(&x).as_str()),
                        None => String::new(),
                    };
                    let u = Unit { id, source, target };
                    let ghost before = units@;
                    units.push(u);
                    proof {
                        lemma_units_push(before, u);
                        assert(id@.len() != 0) by {
                            if id@.len() == 0 {
                                assert(id@ =~= ""@);
                            }
                        }
                    }
                } else {
                    proof {
                        assert(id@.len() == 0);
                    }
                }
                proof {
                    seen = seen.push(item);
                }
                from = t + 13;
            },
            None => {
                proof {
                    assert(tu_all(v@, from as int) == tu_all(v@, from + 1));
                }
                if from == v.len() {
                    proof {
                        assert(tu_all(v@, from + 1) =~= Seq::<(Seq<char>, Seq<char>)>::empty());
                        assert(seen =~= all);
                    }
                    return (lang, units);
                }
                from = from + 1;
            },
        }
    }
    proof {
        assert(tu_all(v@, from as int) =~= Seq::<(Seq<char>, Seq<char>)>::empty());
        assert(seen =~= all);
    }
    (lang, units)
}

/// Which interchange format a (lower-cased) format name selects.
pub open spec fn format_spec(lower: Seq<char>) -> Option<Seq<char>> {
    if lower == "csv"@ {
        Some("csv"@)
    } else if lower == "xliff"@ || lower == "xlf"@ {
        Some("xliff"@)
    } else {
        None
    }
}

/// The format selected by an already lower-cased name: `csv`, or `xliff`
/// (also written `xlf`); any other name is refused.
pub fn format_of(lower: &str) -> (r: Result<&'static str, Error>)
    ensures
        match format_spec(lower@) {
            Some(f) => r matches Ok(x) && x@ == f,
            None => r matches Err(Error::UnknownFormat { format }) && format@ == lower@,
        },
{
    if crate::text::str_eq(lower, "csv") {
        Ok("csv")
    } else if crate::text::str_eq(lower, "xliff") || crate::text::str_eq(lower, "xlf") {
        Ok("xliff")
    } else {
        Err(Error::UnknownFormat { format: owned(lower) })
    }
}

/// Names what `str::to_lowercase` returns (Unicode lower-case mapping,
/// independent of any locale).
pub uninterp spec fn lowercase(s: Seq<char>) -> Seq<char>;

/// Calls `str::to_lowercase`; the contract names its result.
#[verifier::external_body]
fn to_lowercase(s: &str) -> (r: String)
    ensures
        r@ == lowercase(s@),
{
    s.to_lowercase()
}

/// Validates a format name, in any letter case (see `format_of`).
pub fn parse_format(s: &str) -> (r: Result<&'static str, Error>)
    ensures
        match format_spec(lowercase(s@)) {
            Some(f) => r matches Ok(x) && x@ == f,
            None => r matches Err(Error::UnknownFormat { format }) && format@ == lowercase(s@),
        },
{
    let lower = to_lowercase(s);
    format_of(lower.as_str())
}

/// Calls `String::from_utf8`, which accepts exactly the well-formed UTF-8 byte
/// sequences and decodes them.
#[verifier::external_body]
fn string_from_utf8(b: Vec<u8>) -> (r: Option<String>)
    ensures
        match utf8_text(b@) {
            Some(t) => r matches Some(s) && s@ == t,
            None => r is None,
        },
{
    String::from_utf8(b).ok()
}

/// The CSV records of an export: the header `id, <canonical>, <target>`, then
/// one record per unit.
pub open spec fn csv_rows(canon: Seq<char>, target: Seq<char>, units: Seq<UnitV>) -> Seq<Seq<Seq<char>>> {
    seq![seq!["id"@, canon, target]] + units.map_values(|u: UnitV| seq![u.0, u.1, u.2])
}

/// The units as CSV (see `csv_rows`). Every record has three fields, so the
/// CSV writer always succeeds.
pub fn to_csv(canonical_locale: &str, target_locale: &str, units: &Vec<Unit>) -> (r: Result<String, Error>)
    ensures
        r is Ok,
        r matches Ok(t) ==> utf8_text(csv_written(csv_rows(canonical_locale@, target_locale@, units_view(units@)))) == Some(t@),
{
    let mut rows: Vec<Vec<String>> = Vec::new();
    rows.push(vec![owned("id"), owned(canonical_locale), owned(target_locale)]);
    let ghost uv = units_view(units@);
    let ghost f = |u: UnitV| seq![u.0, u.1, u.2];
    proof {
        assert(views(rows@[0]@) =~= seq!["id"@, canonical_locale@, target_locale@]);
        assert(uv.take(0).map_values(f) =~= Seq::<Seq<Seq<char>>>::empty());
        assert(table_view(rows@) =~= csv_rows(canonical_locale@, target_locale@, uv.take(0)));
    }
    let mut i: usize = 0;
    while i < units.len()
        invariant
            i <= units@.len(),
            uv == units_view(units@),
            f == (|u: UnitV| seq![u.0, u.1, u.2]),
            table_view(rows@) == csv_rows(canonical_locale@, target_locale@, uv.take(i as int)),
        decreases units@.len() - i,
    {
        let u = &units[i];
        let row = vec![copy_string(&u.id), copy_string(&u.source), copy_string(&u.target)];
        let ghost before = rows@;
        rows.push(row);
        proof {
            assert(views(row@) =~= f(uv[i as int]));
            assert(table_view(rows@) =~= table_view(before).push(views(row@)));
            assert(uv.take(i + 1).map_values(f) =~= uv.take(i as int).map_values(f).push(f(uv[i as int])));
            assert(table_view(rows@) =~= csv_rows(canonical_locale@, target_locale@, uv.take(i + 1)));
        }
        i = i + 1;
    }
    proof {
        assert(uv.take(units@.len() as int) =~= uv);
        let cr = csv_rows(canonical_locale@, target_locale@, uv);
        assert forall|j: int| 0 <= j < cr.len() implies #[trigger] cr[j].len() == cr[0].len() by {
            if j > 0 {
                assert(cr[j] == f(uv[j - 1]));
            }
        }
        assert(uniform(table_view(rows@)));
    }
    match write_csv(&rows) {
        Ok(b) => match string_from_utf8(b) {
            Some(s) => Ok(s),
            None => Err(Error::Csv { detail: owned("the CSV output is not valid UTF-8") }),
        },
        Err(e) => Err(Error::Csv { detail: csv_error_detail(&e) }),
    }
}

pub open spec fn cell(rec: Seq<Seq<char>>, i: int) -> Seq<char> {
    if 0 <= i < rec.len() {
        rec[i]
    } else {
        Seq::empty()
    }
}

/// The units of CSV records (without the header): a record with an empty id is skipped.
pub open spec fn csv_units(recs: Seq<Seq<Seq<char>>>) -> Seq<UnitV>
    decreases recs.len(),
{
    if recs.len() == 0 {
        Seq::empty()
    } else {
        let prev = csv_units(recs.drop_last());
        let rec = recs.last();
        if cell(rec, 0).len() == 0 {
            prev
        } else {
            prev.push((cell(rec, 0), cell(rec, 1), cell(rec, 2)))
        }
    }
}

/// The target locale (the third header, `target` when missing) and the units
/// of a CSV table whose first record is the header.
pub open spec fn table_units(t: Seq<Seq<Seq<char>>>) -> (Seq<char>, Seq<UnitV>) {
    (
        if t.len() > 0 && t[0].len() > 2 { t[0][2] } else { "target"@ },
        if t.len() > 0 { csv_units(t.drop_first()) } else { Seq::empty() },
    )
}

fn cell_exec(rec: &Vec<String>, i: usize) -> (r: String)
    ensures
        r@ == cell(views(rec@), i as int),
{
    if i < rec.len() {
        copy_string(&rec[i])
    } else {
        String::new()
    }
}

/// The target locale and the units of a CSV table (see `table_units`).
pub fn units_from_table(table: &Vec<Vec<String>>) -> (r: (String, Vec<Unit>))
    ensures
        (r.0@, units_view(r.1@)) == table_units(table_view(table@)),
{
    let ghost tv = table_view(table@);
    let target = if table.len() > 0 && table[0].len() > 2 {
        copy_string(&table[0][2])
    } else {
        owned("target")
    };
    let mut units: Vec<Unit> = Vec::new();
    if table.len() == 0 {
        proof {
            assert(units_view(units@) =~= Seq::<UnitV>::empty());
        }
        return (target, units);
    }
    let ghost recs = tv.drop_first();
    proof {
        assert(units_view(units@) =~= csv_units(recs.take(0)));
        reveal_strlit("");
    }
    let mut i: usize = 1;
    while i < table.len()
        invariant
            1 <= i <= table@.len(),
            tv == table_view(table@),
            recs == tv.drop_first(),
            units_view(units@) == csv_units(recs.take(i - 1)),
        decreases table@.len() - i,
    {
        let rec = &table[i];
        proof {
            reveal_strlit("");
            assert(recs.take(i as int).drop_last() =~= recs.take(i - 1));
            assert(recs.take(i as int).last() == views(rec@));
        }
        let id = cell_exec(rec, 0);
        if !crate::text::str_eq(id.as_str(), "") {
            let u = Unit { id, source: cell_exec(rec, 1), target: cell_exec(rec, 2) };
            let ghost before = units@;
            units.push(u);
            proof {
                lemma_units_push(before, u);
                reveal_strlit("");
                assert(u.id@.len() != 0) by {
                    if u.id@.len() == 0 {
                        assert(u.id@ =~= ""@);
                    }
                }
            }
        } else {
            proof {
                assert(id@.len() == 0);
            }
        }
        proof {
            assert(recs.take(i + 1 - 1) =~= recs.take(i as int));
        }
        i = i + 1;
    }
    proof {
        assert(recs.take(table@.len() - 1) =~= recs);
    }
    (target, units)
}

/// Reads a CSV export back: the target locale (third header) and the units.
/// It fails, with the CSV reader's error, exactly when some record has another
/// number of fields than the header.
pub fn from_csv(text: &str) -> (r: Result<(String, Vec<Unit>), Error>)
    ensures
        r is Ok <==> uniform(csv_read(text@)),
        r matches Ok(p) ==> (p.0@, units_view(p.1@)) == table_units(csv_read(text@)),
        r matches Err(e) ==> e is Csv,
{
    match read_csv(text) {
        Ok(t) => Ok(units_from_table(&t)),
        Err(e) => Err(Error::Csv { detail: csv_error_detail(&e) }),
    }
}

/// A plural leaf keeps the target's existing translations: when the target's
/// `$plural` has a string form for category `cats[j]`, the unit exported for
/// that category has id `key#cat` and that string as its target.
pub proof fn law_export_plural_keeps_translation(
    k: Seq<char>,
    cval: JsonV,
    tnode: JsonV,
    cats: Seq<Seq<char>>,
    path: Seq<Seq<char>>,
    out: Seq<UnitV>,
    j: int,
    t: Seq<char>,
)
    requires
        plural_forms_spec(cval) is Some,
        0 <= j < cats.len(),
        plural_forms_spec(tnode) matches Some(tf) && fields_get(tf, cats[j]) == Some(JsonV::Str(t)),
    ensures
        export_entry(k, cval, Some(tnode), cats, path, out).len() == out.len() + cats.len(),
        export_entry(k, cval, Some(tnode), cats, path, out)[out.len() + j].0 == sub_id(seq_join(path.push(k), "."@), cats[j]),
        export_entry(k, cval, Some(tnode), cats, path, out)[out.len() + j].2 == t,
{
    assert(cval is Obj);
    let d = seq_join(path.push(k), "."@);
    let f = |c: Seq<char>| plural_unit(d, plural_forms_spec(cval).unwrap(), opt_forms(Some(tnode)), c);
    let r = out + cats.map_values(f);
    assert(export_entry(k, cval, Some(tnode), cats, path, out) == r);
    assert(r[out.len() + j] == f(cats[j]));
}

} // verus!
