//! What an import can write: the canonical catalog decides every path and
//! shape, and the translation file only supplies strings.

use vstd::prelude::*;
use crate::check::member;
use crate::exchange::{
    build_entry, build_fields, build_paths_spec, built_branches, category_names, plural_forms_spec, plural_node,
    select_cases_spec, select_node, select_param, sub_id, unit_target, PathV, UnitV,
};
use crate::ir::{lemma_fields_insert_entries, lookup_spec};
use crate::json::{fields_get, fields_insert, lemma_sorted_get, lemma_wf_fields, wf_json, JsonV};
use crate::text::seq_join;

verus! {

/// Every branch is a string under one of `names`.
pub open spec fn branches_from(fs: Seq<(Seq<char>, JsonV)>, names: Seq<Seq<char>>) -> bool {
    forall|i: int| 0 <= i < fs.len() ==> names.contains(#[trigger] fs[i].0) && fs[i].1 is Str
}

/// The names of a `$select` leaf's cases.
pub open spec fn case_names(cval: JsonV) -> Seq<Seq<char>> {
    select_cases_spec(cval).unwrap().map_values(|e: (Seq<char>, JsonV)| e.0)
}

/// A rebuilt value keeps the shape of the canonical node `cval`: a string for
/// a string, a `$plural` over category names for a `$plural`, and a `$select`
/// with the canonical param over canonical cases for a `$select`.
pub open spec fn shape_kept(cval: JsonV, v: JsonV) -> bool {
    if cval is Str {
        v is Str
    } else if cval is Obj && plural_forms_spec(cval) is Some {
        exists|forms: Seq<(Seq<char>, JsonV)>| v == plural_node(forms) && #[trigger] branches_from(forms, category_names())
    } else if cval is Obj && select_cases_spec(cval) is Some {
        exists|cases: Seq<(Seq<char>, JsonV)>|
            v == select_node(select_param(cval), cases) && #[trigger] branches_from(cases, case_names(cval))
    } else {
        false
    }
}

/// Every rebuilt leaf sits at a canonical node whose shape it keeps.
pub open spec fn all_kept(canon: JsonV, out: Seq<PathV>) -> bool {
    forall|i: int|
        0 <= i < out.len() ==> (lookup_spec(canon, #[trigger] out[i].0) matches Some(cval) && shape_kept(cval, out[i].1))
}

proof fn lemma_built_branches(units: Seq<UnitV>, d: Seq<char>, names: Seq<Seq<char>>)
    ensures
        branches_from(built_branches(units, d, names), names),
    decreases names.len(),
{
    if names.len() > 0 {
        let init = names.drop_last();
        lemma_built_branches(units, d, init);
        let prev = built_branches(units, d, init);
        assert forall|i: int| 0 <= i < prev.len() implies names.contains(#[trigger] prev[i].0) by {
            assert(init.contains(prev[i].0));
            let k = choose|k: int| 0 <= k < init.len() && init[k] == prev[i].0;
            assert(names[k] == init[k]);
        }
        assert(names.contains(names.last())) by {
            assert(names[names.len() - 1] == names.last());
        }
        if let Some(t) = unit_target(units, sub_id(d, names.last())) {
            let r = fields_insert(prev, names.last(), JsonV::Str(t));
            lemma_fields_insert_entries(prev, names.last(), JsonV::Str(t));
            assert forall|i: int| 0 <= i < r.len() implies names.contains(#[trigger] r[i].0) && r[i].1 is Str by {
                if r[i] != (names.last(), JsonV::Str(t)) {
                    assert(prev.contains(r[i]));
                    let k = choose|k: int| 0 <= k < prev.len() && prev[k] == r[i];
                    assert(names.contains(prev[k].0));
                }
            }
        }
    }
}

/// Looking one step further down a path.
proof fn lemma_lookup_push(root: JsonV, path: Seq<Seq<char>>, k: Seq<char>)
    ensures
        lookup_spec(root, path.push(k)) == match lookup_spec(root, path) {
            Some(n) => member(n, k),
            None => None,
        },
    decreases path.len(),
{
    if path.len() > 0 {
        assert(path.push(k).drop_first() =~= path.drop_first().push(k));
        assert(path.push(k)[0] == path[0]);
        match member(root, path[0]) {
            Some(c) => lemma_lookup_push(c, path.drop_first(), k),
            None => {},
        }
    } else {
        assert(path.push(k).drop_first() =~= Seq::<Seq<char>>::empty());
        assert(path.push(k)[0] == k);
        match member(root, k) {
            Some(c) => {
                assert(lookup_spec(c, Seq::<Seq<char>>::empty()) == Some(c));
            },
            None => {},
        }
    }
}

proof fn lemma_entry_kept(canon: JsonV, k: Seq<char>, cval: JsonV, units: Seq<UnitV>, path: Seq<Seq<char>>, out: Seq<PathV>)
    requires
        lookup_spec(canon, path.push(k)) == Some(cval),
        wf_json(cval),
        all_kept(canon, out),
    ensures
        all_kept(canon, build_entry(k, cval, units, path, out)),
    decreases cval, 0int,
{
    let p = path.push(k);
    let d = seq_join(p, "."@);
    let r = build_entry(k, cval, units, path, out);
    match cval {
        JsonV::Str(_) => {
            assert forall|i: int| 0 <= i < r.len() implies (lookup_spec(canon, #[trigger] r[i].0) matches Some(cv)
                && shape_kept(cv, r[i].1)) by {
                if i < out.len() {
                    assert(r[i] == out[i]);
                }
            }
        },
        JsonV::Obj(fs) => {
            if plural_forms_spec(cval) is Some {
                let forms = built_branches(units, d, category_names());
                lemma_built_branches(units, d, category_names());
                assert forall|i: int| 0 <= i < r.len() implies (lookup_spec(canon, #[trigger] r[i].0) matches Some(cv)
                    && shape_kept(cv, r[i].1)) by {
                    if i < out.len() {
                        assert(r[i] == out[i]);
                    } else {
                        assert(r[i] == (p, plural_node(forms)));
                        assert(branches_from(forms, category_names()));
                    }
                }
            } else if select_cases_spec(cval) is Some {
                let cases = built_branches(units, d, case_names(cval));
                lemma_built_branches(units, d, case_names(cval));
                assert forall|i: int| 0 <= i < r.len() implies (lookup_spec(canon, #[trigger] r[i].0) matches Some(cv)
                    && shape_kept(cv, r[i].1)) by {
                    if i < out.len() {
                        assert(r[i] == out[i]);
                    } else {
                        assert(r[i] == (p, select_node(select_param(cval), cases)));
                        assert(branches_from(cases, case_names(cval)));
                    }
                }
            } else {
                lemma_fields_kept(canon, fs, fs.len() as int, units, p, out);
                assert(fs.take(fs.len() as int) =~= fs);
            }
        },
        _ => {},
    }
}

proof fn lemma_fields_kept(canon: JsonV, fs: Seq<(Seq<char>, JsonV)>, n: int, units: Seq<UnitV>, path: Seq<Seq<char>>, out: Seq<PathV>)
    requires
        lookup_spec(canon, path) == Some(JsonV::Obj(fs)),
        wf_json(JsonV::Obj(fs)),
        0 <= n <= fs.len(),
        all_kept(canon, out),
    ensures
        all_kept(canon, build_fields(fs.take(n), units, path, out)),
    decreases fs, n,
{
    if n > 0 {
        let part = fs.take(n);
        assert(part.subrange(0, part.len() - 1) =~= fs.take(n - 1));
        assert(part[part.len() - 1] == fs[n - 1]);
        lemma_fields_kept(canon, fs, n - 1, units, path, out);
        let k = fs[n - 1].0;
        let cval = fs[n - 1].1;
        lemma_lookup_push(canon, path, k);
        lemma_sorted_get(fs, n - 1);
        lemma_wf_fields(fs);
        assert(wf_json(fs[n - 1].1));
        assert(decreases_to!(fs => fs[n - 1]));
        lemma_entry_kept(canon, k, cval, units, path, build_fields(fs.take(n - 1), units, path, out));
    }
}

/// Import follows the canonical catalog: every leaf that a translation file
/// rebuilds sits at a path of the canonical catalog and keeps the shape it has
/// there — a string stays a string, a `$plural` stays a `$plural` over CLDR
/// category names, and a `$select` keeps its param and its canonical cases. Only
/// the strings come from the file.
pub proof fn law_import_keeps_canonical_shape(canon: JsonV, units: Seq<UnitV>, i: int)
    requires
        wf_json(canon),
        0 <= i < build_paths_spec(canon, units).len(),
    ensures
        lookup_spec(canon, build_paths_spec(canon, units)[i].0) matches Some(cval) && shape_kept(
            cval,
            build_paths_spec(canon, units)[i].1,
        ),
{
    if let JsonV::Obj(fs) = canon {
        assert(lookup_spec(canon, Seq::<Seq<char>>::empty()) == Some(canon));
        assert(all_kept(canon, Seq::<PathV>::empty()));
        lemma_fields_kept(canon, fs, fs.len() as int, units, Seq::empty(), Seq::empty());
        assert(fs.take(fs.len() as int) =~= fs);
    }
}

} // verus!
