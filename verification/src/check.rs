//! `stele check`: validate a catalog across locales without generating code.
//!
//! Catches what makes a multi-locale catalog ship broken: missing or drifted
//! translations, placeholder mismatches that break interpolation, and plural
//! forms a locale's CLDR rules require but the catalog omits. The canonical
//! locale defines the reference shape; every other locale is compared with it.

use vstd::prelude::*;
use crate::assoc::{assoc_index, assoc_insert, contains_str, kv_view, lemma_map_vals_get, lemma_map_vals_insert, map_vals, set_add, set_add_all, set_extend, set_insert, set_of, lemma_set_extend_contains};
use crate::error::Error;
use crate::json::{catalog_wf, field_index as field_index_of, fields_get, fields_insert, json_view, lemma_fields_index, lemma_view_fields, view_fields, Json, JsonV};
use crate::placeholder::{placeholder_names, placeholder_names_spec};
use crate::plural::{build_plural_table, cat_name_spec, cldr_category, plural_error_for, plural_table_fails, steady_at};
use crate::text::{concat3, copy_string, join, owned, push_str, seq_join, str_eq, views};

verus! {

#[derive(PartialEq, Eq, Structural, Clone, Copy, Debug)]
pub enum Severity {
    Error,
    Warning,
}

/// One issue found in one locale, at one dotted key.
pub struct Diagnostic {
    pub severity: Severity,
    pub locale: String,
    pub key: String,
    pub message: String,
}

/// Model of a diagnostic.
pub struct DiagV {
    pub severity: Severity,
    pub locale: Seq<char>,
    pub key: Seq<char>,
    pub message: Seq<char>,
}

impl View for Diagnostic {
    type V = DiagV;

    open spec fn view(&self) -> DiagV {
        DiagV { severity: self.severity, locale: self.locale@, key: self.key@, message: self.message@ }
    }
}

pub open spec fn diag(severity: Severity, locale: Seq<char>, key: Seq<char>, message: Seq<char>) -> DiagV {
    DiagV { severity, locale, key, message }
}

impl Diagnostic {
    pub fn error(locale: &str, key: &str, message: String) -> (r: Diagnostic)
        ensures
            r@ == diag(Severity::Error, locale@, key@, message@),
    {
        Diagnostic { severity: Severity::Error, locale: owned(locale), key: owned(key), message }
    }

    pub fn warning(locale: &str, key: &str, message: String) -> (r: Diagnostic)
        ensures
            r@ == diag(Severity::Warning, locale@, key@, message@),
    {
        Diagnostic { severity: Severity::Warning, locale: owned(locale), key: owned(key), message }
    }
}

/// The views of a list of diagnostics.
pub open spec fn diags_view(s: Seq<Diagnostic>) -> Seq<DiagV> {
    s.map_values(|d: Diagnostic| d@)
}

/// How many diagnostics have severity `sev`.
pub open spec fn count_sev(s: Seq<DiagV>, sev: Severity) -> nat
    decreases s.len(),
{
    if s.len() == 0 {
        0
    } else {
        count_sev(s.drop_last(), sev) + if s.last().severity == sev {
            1nat
        } else {
            0nat
        }
    }
}

/// The result of checking a catalog: the canonical key count plus every issue.
pub struct Report {
    pub key_count: usize,
    pub diagnostics: Vec<Diagnostic>,
}

impl Report {
    /// The number of error diagnostics.
    pub fn errors(&self) -> (r: usize)
        ensures
            r == count_sev(diags_view(self.diagnostics@), Severity::Error),
    {
        self.count(Severity::Error)
    }

    /// The number of warning diagnostics.
    pub fn warnings(&self) -> (r: usize)
        ensures
            r == count_sev(diags_view(self.diagnostics@), Severity::Warning),
    {
        self.count(Severity::Warning)
    }

    pub fn count(&self, sev: Severity) -> (r: usize)
        ensures
            r == count_sev(diags_view(self.diagnostics@), sev),
    {
        let ghost dv = diags_view(self.diagnostics@);
        let mut n: usize = 0;
        let mut i: usize = 0;
        while i < self.diagnostics.len()
            invariant
                i <= self.diagnostics@.len(),
                dv == diags_view(self.diagnostics@),
                n == count_sev(dv.take(i as int), sev),
                n <= i,
            decreases self.diagnostics@.len() - i,
        {
            proof {
                assert(dv.take(i + 1).drop_last() =~= dv.take(i as int));
            }
            if self.diagnostics[i].severity == sev {
                n = n + 1;
            }
            i = i + 1;
        }
        proof {
            assert(dv.take(i as int) =~= dv);
        }
        n
    }
}

/// What a catalog leaf is.
#[derive(PartialEq, Eq, Structural, Clone, Copy, Debug)]
pub enum LeafKind {
    Plain,
    Plural,
    Select,
}

/// A flattened catalog leaf with the placeholder names it references (an
/// ascending set). For plurals `branches` holds the categories provided; for
/// selects the case names, and `selector` the param driving them.
pub struct Leaf {
    pub kind: LeafKind,
    pub placeholders: Vec<String>,
    pub branches: Vec<String>,
    pub selector: Option<String>,
}

pub struct LeafV {
    pub kind: LeafKind,
    pub placeholders: Seq<Seq<char>>,
    pub branches: Seq<Seq<char>>,
    pub selector: Option<Seq<char>>,
}

pub open spec fn opt_view(o: Option<String>) -> Option<Seq<char>> {
    match o {
        Some(s) => Some(s@),
        None => None,
    }
}

impl View for Leaf {
    type V = LeafV;

    open spec fn view(&self) -> LeafV {
        LeafV {
            kind: self.kind,
            placeholders: views(self.placeholders@),
            branches: views(self.branches@),
            selector: opt_view(self.selector),
        }
    }
}

/// Leaves by dotted key, and the malformed shapes met, as `(key, message)`.
pub struct FlatV {
    pub leaves: Seq<(Seq<char>, LeafV)>,
    pub errors: Seq<(Seq<char>, Seq<char>)>,
}

pub open spec fn leaves_view(s: Seq<(String, Leaf)>) -> Seq<(Seq<char>, LeafV)> {
    map_vals(kv_view(s), |l: Leaf| l@)
}

pub open spec fn pairs_view(s: Seq<(String, String)>) -> Seq<(Seq<char>, Seq<char>)> {
    s.map_values(|p: (String, String)| (p.0@, p.1@))
}

/// The six CLDR plural categories.
pub open spec fn is_category(c: Seq<char>) -> bool {
    c == "zero"@ || c == "one"@ || c == "two"@ || c == "few"@ || c == "many"@ || c == "other"@
}

pub open spec fn str_of(v: JsonV) -> Option<Seq<char>> {
    match v {
        JsonV::Str(s) => Some(s),
        _ => None,
    }
}

/// Member `k` of an object (nothing for a non-object).
pub open spec fn member(v: JsonV, k: Seq<char>) -> Option<JsonV> {
    match v {
        JsonV::Obj(fs) => fields_get(fs, k),
        _ => None,
    }
}

/// Accumulated placeholders, branches and errors while reading `$plural` forms
/// or `$select` cases.
pub struct BranchScan {
    pub placeholders: Seq<Seq<char>>,
    pub branches: Seq<Seq<char>>,
    pub errors: Seq<(Seq<char>, Seq<char>)>,
}

/// Reads the forms of a `$plural` at dotted key `d`.
pub open spec fn scan_plural(forms: Seq<(Seq<char>, JsonV)>, d: Seq<char>, st: BranchScan) -> BranchScan
    decreases forms.len(),
{
    if forms.len() == 0 {
        st
    } else {
        let prev = scan_plural(forms.drop_last(), d, st);
        let cat = forms.last().0;
        if !is_category(cat) {
            BranchScan {
                errors: prev.errors.push(
                    (d, "unknown plural category '"@ + cat + "' (valid: zero one two few many other)"@),
                ),
                ..prev
            }
        } else {
            let branches = set_insert(prev.branches, cat);
            match str_of(forms.last().1) {
                Some(text) => BranchScan {
                    placeholders: set_extend(prev.placeholders, placeholder_names_spec(text)),
                    branches,
                    errors: prev.errors,
                },
                None => BranchScan {
                    branches,
                    errors: prev.errors.push((d, "plural form '"@ + cat + "' must be a string"@)),
                    ..prev
                },
            }
        }
    }
}

/// Reads the cases of a `$select` at dotted key `d`.
pub open spec fn scan_select(cases: Seq<(Seq<char>, JsonV)>, d: Seq<char>, st: BranchScan) -> BranchScan
    decreases cases.len(),
{
    if cases.len() == 0 {
        st
    } else {
        let prev = scan_select(cases.drop_last(), d, st);
        let case = cases.last().0;
        let branches = set_insert(prev.branches, case);
        match str_of(cases.last().1) {
            Some(text) => BranchScan {
                placeholders: set_extend(prev.placeholders, placeholder_names_spec(text)),
                branches,
                errors: prev.errors,
            },
            None => BranchScan {
                branches,
                errors: prev.errors.push((d, "select case '"@ + case + "' must be a string"@)),
                ..prev
            },
        }
    }
}

pub open spec fn empty_scan(errors: Seq<(Seq<char>, Seq<char>)>) -> BranchScan {
    BranchScan { placeholders: Seq::empty(), branches: Seq::empty(), errors }
}

/// Flattening one entry `k: v` under `path`.
pub open spec fn walk_entry(k: Seq<char>, v: JsonV, path: Seq<Seq<char>>, st: FlatV) -> FlatV
    decreases v,
{
    let p = path.push(k);
    let d = seq_join(p, "."@);
    match v {
        JsonV::Str(s) => FlatV {
            leaves: fields_insert(
                st.leaves,
                d,
                LeafV {
                    kind: LeafKind::Plain,
                    placeholders: set_of(placeholder_names_spec(s)),
                    branches: Seq::empty(),
                    selector: None,
                },
            ),
            errors: st.errors,
        },
        JsonV::Obj(fs) => {
            if fields_get(fs, "$plural"@) is Some {
                match fields_get(fs, "$plural"@).unwrap() {
                    JsonV::Obj(forms) => {
                        let sc = scan_plural(forms, d, empty_scan(st.errors));
                        let errors = if sc.branches.contains("other"@) {
                            sc.errors
                        } else {
                            sc.errors.push((d, "$plural is missing the required 'other' form"@))
                        };
                        FlatV {
                            leaves: fields_insert(
                                st.leaves,
                                d,
                                LeafV {
                                    kind: LeafKind::Plural,
                                    placeholders: sc.placeholders,
                                    branches: sc.branches,
                                    selector: None,
                                },
                            ),
                            errors,
                        }
                    },
                    _ => FlatV {
                        leaves: st.leaves,
                        errors: st.errors.push(
                            (d, "$plural must be an object of category \u{2192} string"@),
                        ),
                    },
                }
            } else if fields_get(fs, "$select"@) is Some {
                let sel = fields_get(fs, "$select"@).unwrap();
                let param = match member(sel, "param"@) {
                    Some(pv) => str_of(pv),
                    None => None,
                };
                let cases = member(sel, "cases"@);
                if param is Some && cases is Some && cases.unwrap() is Obj {
                    let sc = scan_select(cases.unwrap()->Obj_0, d, empty_scan(st.errors));
                    let errors = if sc.branches.contains("other"@) {
                        sc.errors
                    } else {
                        sc.errors.push((d, "$select is missing the required 'other' case"@))
                    };
                    FlatV {
                        leaves: fields_insert(
                            st.leaves,
                            d,
                            LeafV {
                                kind: LeafKind::Select,
                                placeholders: sc.placeholders,
                                branches: sc.branches,
                                selector: param,
                            },
                        ),
                        errors,
                    }
                } else {
                    FlatV {
                        leaves: st.leaves,
                        errors: st.errors.push(
                            (d, "$select needs a string 'param' and a 'cases' object"@),
                        ),
                    }
                }
            } else {
                walk_fields(fs, p, st)
            }
        },
        _ => st,
    }
}

/// Flattening the entries of an object under `path`, in order.
pub open spec fn walk_fields(fs: Seq<(Seq<char>, JsonV)>, path: Seq<Seq<char>>, st: FlatV) -> FlatV
    decreases fs,
{
    if fs.len() == 0 {
        st
    } else {
        let last = fs[fs.len() - 1];
        walk_entry(last.0, last.1, path, walk_fields(fs.subrange(0, fs.len() - 1), path, st))
    }
}

/// One locale tree flattened into dotted-key leaves, with every malformed
/// `$plural` / `$select` shape collected as an error instead of stopping.
pub open spec fn flatten_spec(root: JsonV) -> FlatV {
    match root {
        JsonV::Obj(fs) => walk_fields(fs, Seq::empty(), FlatV { leaves: Seq::empty(), errors: Seq::empty() }),
        _ => FlatV { leaves: Seq::empty(), errors: Seq::empty() },
    }
}

fn is_category_exec(c: &str) -> (r: bool)
    ensures
        r == is_category(c@),
{
    str_eq(c, "zero") || str_eq(c, "one") || str_eq(c, "two") || str_eq(c, "few") || str_eq(c, "many")
        || str_eq(c, "other")
}

proof fn lemma_views_push(s: Seq<String>, x: String)
    ensures
        views(s.push(x)) == views(s).push(x@),
{
    assert(views(s.push(x)) =~= views(s).push(x@));
}

fn push_error(errors: &mut Vec<(String, String)>, d: &String, message: String)
    ensures
        pairs_view(final(errors)@) == pairs_view(old(errors)@).push((d@, message@)),
{
    let ghost before = errors@;
    errors.push((copy_string(d), message));
    proof {
        assert(pairs_view(errors@) =~= pairs_view(before).push((d@, message@)));
    }
}

/// Reads the forms of a `$plural` (see `scan_plural`), returning its
/// placeholders and branches and appending any errors.
fn scan_plural_exec(forms: &Vec<(String, Json)>, d: &String, errors: &mut Vec<(String, String)>) -> (r: (
    Vec<String>,
    Vec<String>,
))
    ensures
        ({
            let sc = scan_plural(view_fields(forms@), d@, empty_scan(pairs_view(old(errors)@)));
            &&& views(r.0@) == sc.placeholders
            &&& views(r.1@) == sc.branches
            &&& pairs_view(final(errors)@) == sc.errors
        }),
{
    let ghost vf = view_fields(forms@);
    let ghost st0 = empty_scan(pairs_view(errors@));
    proof {
        lemma_view_fields(forms@);
    }
    let mut placeholders: Vec<String> = Vec::new();
    let mut branches: Vec<String> = Vec::new();
    let mut i: usize = 0;
    proof {
        assert(views(placeholders@) =~= Seq::<Seq<char>>::empty());
        assert(views(branches@) =~= Seq::<Seq<char>>::empty());
        assert(vf.take(0) =~= Seq::<(Seq<char>, JsonV)>::empty());
    }
    while i < forms.len()
        invariant
            i <= forms@.len(),
            vf == view_fields(forms@),
            vf.len() == forms@.len(),
            forall|j: int| 0 <= j < forms@.len() ==> #[trigger] vf[j] == (forms@[j].0@, json_view(forms@[j].1)),
            st0 == empty_scan(pairs_view(old(errors)@)),
            ({
                let sc = scan_plural(vf.take(i as int), d@, st0);
                &&& views(placeholders@) == sc.placeholders
                &&& views(branches@) == sc.branches
                &&& pairs_view(errors@) == sc.errors
            }),
        decreases forms@.len() - i,
    {
        proof {
            assert(vf.take(i + 1).drop_last() =~= vf.take(i as int));
            assert(vf.take(i + 1).last() == vf[i as int]);
        }
        let cat = &forms[i].0;
        if !is_category_exec(cat.as_str()) {
            push_error(errors, d, concat3("unknown plural category '", cat.as_str(), "' (valid: zero one two few many other)"));
        } else {
            set_add(&mut branches, copy_string(cat));
            match forms[i].1.as_str() {
                Some(text) => {
                    let names = placeholder_names(text.as_str());
                    proof {
                        assert(views(names@) =~= placeholder_names_spec(text@));
                    }
                    set_add_all(&mut placeholders, &names);
                },
                None => {
                    push_error(errors, d, concat3("plural form '", cat.as_str(), "' must be a string"));
                },
            }
        }
        i = i + 1;
    }
    proof {
        assert(vf.take(i as int) =~= vf);
    }
    (placeholders, branches)
}

/// Reads the cases of a `$select` (see `scan_select`).
fn scan_select_exec(cases: &Vec<(String, Json)>, d: &String, errors: &mut Vec<(String, String)>) -> (r: (
    Vec<String>,
    Vec<String>,
))
    ensures
        ({
            let sc = scan_select(view_fields(cases@), d@, empty_scan(pairs_view(old(errors)@)));
            &&& views(r.0@) == sc.placeholders
            &&& views(r.1@) == sc.branches
            &&& pairs_view(final(errors)@) == sc.errors
        }),
{
    let ghost vf = view_fields(cases@);
    let ghost st0 = empty_scan(pairs_view(errors@));
    proof {
        lemma_view_fields(cases@);
    }
    let mut placeholders: Vec<String> = Vec::new();
    let mut branches: Vec<String> = Vec::new();
    let mut i: usize = 0;
    proof {
        assert(views(placeholders@) =~= Seq::<Seq<char>>::empty());
        assert(views(branches@) =~= Seq::<Seq<char>>::empty());
        assert(vf.take(0) =~= Seq::<(Seq<char>, JsonV)>::empty());
    }
    while i < cases.len()
        invariant
            i <= cases@.len(),
            vf == view_fields(cases@),
            vf.len() == cases@.len(),
            forall|j: int| 0 <= j < cases@.len() ==> #[trigger] vf[j] == (cases@[j].0@, json_view(cases@[j].1)),
            st0 == empty_scan(pairs_view(old(errors)@)),
            ({
                let sc = scan_select(vf.take(i as int), d@, st0);
                &&& views(placeholders@) == sc.placeholders
                &&& views(branches@) == sc.branches
                &&& pairs_view(errors@) == sc.errors
            }),
        decreases cases@.len() - i,
    {
        proof {
            assert(vf.take(i + 1).drop_last() =~= vf.take(i as int));
            assert(vf.take(i + 1).last() == vf[i as int]);
        }
        let case = &cases[i].0;
        set_add(&mut branches, copy_string(case));
        match cases[i].1.as_str() {
            Some(text) => {
                let names = placeholder_names(text.as_str());
                proof {
                    assert(views(names@) =~= placeholder_names_spec(text@));
                }
                set_add_all(&mut placeholders, &names);
            },
            None => {
                push_error(errors, d, concat3("select case '", case.as_str(), "' must be a string"));
            },
        }
        i = i + 1;
    }
    proof {
        assert(vf.take(i as int) =~= vf);
    }
    (placeholders, branches)
}

fn insert_leaf(leaves: &mut Vec<(String, Leaf)>, d: String, leaf: Leaf)
    ensures
        leaves_view(final(leaves)@) == fields_insert(leaves_view(old(leaves)@), d@, leaf@),
{
    let ghost before = leaves@;
    let ghost lv = leaf@;
    let ghost dv = d@;
    assoc_insert(leaves, d, leaf);
    proof {
        lemma_map_vals_insert(kv_view(before), |l: Leaf| l@, dv, leaf);
    }
}

/// Flattens the entry `k: v` under `path` (see `walk_entry`).
fn walk_entry_exec(
    k: &String,
    v: &Json,
    path: &mut Vec<String>,
    leaves: &mut Vec<(String, Leaf)>,
    errors: &mut Vec<(String, String)>,
)
    ensures
        final(path)@ == old(path)@,
        ({
            let st = walk_entry(
                k@,
                v@,
                views(old(path)@),
                FlatV { leaves: leaves_view(old(leaves)@), errors: pairs_view(old(errors)@) },
            );
            &&& leaves_view(final(leaves)@) == st.leaves
            &&& pairs_view(final(errors)@) == st.errors
        }),
    decreases v,
{
    let ghost path0 = path@;
    path.push(copy_string(k));
    proof {
        lemma_views_push(path0, path@.last());
    }
    let d = join(path, ".");
    match v {
        Json::Str(text) => {
            let names = placeholder_names(text.as_str());
            proof {
                assert(views(names@) =~= placeholder_names_spec(text@));
            }
            let mut phs: Vec<String> = Vec::new();
            proof {
                assert(views(phs@) =~= Seq::<Seq<char>>::empty());
            }
            set_add_all(&mut phs, &names);
            proof {
                lemma_set_extend_empty(placeholder_names_spec(text@));
            }
            let leaf = Leaf { kind: LeafKind::Plain, placeholders: phs, branches: Vec::new(), selector: None };
            proof {
                assert(views(leaf.branches@) =~= Seq::<Seq<char>>::empty());
            }
            insert_leaf(leaves, d, leaf);
        },
        Json::Object(fs) => {
            let ghost vf = view_fields(fs@);
            proof {
                lemma_view_fields(fs@);
            }
            match field_index_of(fs, "$plural") {
                Some(i) => {
                    proof {
                        lemma_fields_index(vf, "$plural"@);
                    }
                    match &fs[i].1 {
                        Json::Object(forms) => {
                            let (phs, branches) = scan_plural_exec(forms, &d, errors);
                            if !contains_str(&branches, "other") {
                                push_error(errors, &d, owned("$plural is missing the required 'other' form"));
                            }
                            let leaf = Leaf { kind: LeafKind::Plural, placeholders: phs, branches, selector: None };
                            insert_leaf(leaves, d, leaf);
                        },
                        _ => {
                            push_error(errors, &d, owned("$plural must be an object of category \u{2192} string"));
                        },
                    }
                },
                None => {
                    proof {
                        lemma_fields_index(vf, "$plural"@);
                    }
                    match field_index_of(fs, "$select") {
                        Some(i) => {
                            proof {
                                lemma_fields_index(vf, "$select"@);
                            }
                            let sel = &fs[i].1;
                            let param = match sel.get("param") {
                                Some(pv) => pv.as_str(),
                                None => None,
                            };
                            let cases = match sel.get("cases") {
                                Some(cv) => cv.as_object(),
                                None => None,
                            };
                            match (param, cases) {
                                (Some(pm), Some(cs)) => {
                                    let (phs, branches) = scan_select_exec(cs, &d, errors);
                                    if !contains_str(&branches, "other") {
                                        push_error(errors, &d, owned("$select is missing the required 'other' case"));
                                    }
                                    let leaf = Leaf {
                                        kind: LeafKind::Select,
                                        placeholders: phs,
                                        branches,
                                        selector: Some(copy_string(pm)),
                                    };
                                    insert_leaf(leaves, d, leaf);
                                },
                                _ => {
                                    push_error(errors, &d, owned("$select needs a string 'param' and a 'cases' object"));
                                },
                            }
                        },
                        None => {
                            proof {
                                lemma_fields_index(vf, "$select"@);
                            }
                            walk_fields_exec(fs, path, leaves, errors);
                        },
                    }
                },
            }
        },
        _ => {},
    }
    path.pop();
    proof {
        assert(path@ =~= path0);
    }
}

/// Flattens the entries of an object under `path` (see `walk_fields`).
fn walk_fields_exec(
    fs: &Vec<(String, Json)>,
    path: &mut Vec<String>,
    leaves: &mut Vec<(String, Leaf)>,
    errors: &mut Vec<(String, String)>,
)
    ensures
        final(path)@ == old(path)@,
        ({
            let st = walk_fields(
                view_fields(fs@),
                views(old(path)@),
                FlatV { leaves: leaves_view(old(leaves)@), errors: pairs_view(old(errors)@) },
            );
            &&& leaves_view(final(leaves)@) == st.leaves
            &&& pairs_view(final(errors)@) == st.errors
        }),
    decreases fs,
{
    let ghost vf = view_fields(fs@);
    let ghost st0 = FlatV { leaves: leaves_view(leaves@), errors: pairs_view(errors@) };
    let ghost pv = views(path@);
    proof {
        lemma_view_fields(fs@);
        assert(vf.subrange(0, 0) =~= Seq::<(Seq<char>, JsonV)>::empty());
    }
    let mut i: usize = 0;
    while i < fs.len()
        invariant
            i <= fs@.len(),
            vf == view_fields(fs@),
            vf.len() == fs@.len(),
            forall|j: int| 0 <= j < fs@.len() ==> #[trigger] vf[j] == (fs@[j].0@, json_view(fs@[j].1)),
            views(path@) == pv,
            path@ == old(path)@,
            st0 == (FlatV { leaves: leaves_view(old(leaves)@), errors: pairs_view(old(errors)@) }),
            pv == views(old(path)@),
            ({
                let st = walk_fields(vf.subrange(0, i as int), pv, st0);
                &&& leaves_view(leaves@) == st.leaves
                &&& pairs_view(errors@) == st.errors
            }),
        decreases fs@.len() - i,
    {
        proof {
            assert(vf.subrange(0, i + 1).subrange(0, i as int) =~= vf.subrange(0, i as int));
            assert(vf.subrange(0, i + 1)[i as int] == vf[i as int]);
            assert(decreases_to!(fs => fs[i as int]));
        }
        walk_entry_exec(&fs[i].0, &fs[i].1, path, leaves, errors);
        i = i + 1;
    }
    proof {
        assert(vf.subrange(0, i as int) =~= vf);
    }
}

proof fn lemma_set_extend_empty(s: Seq<Seq<char>>)
    ensures
        set_extend(Seq::empty(), s) == set_of(s),
    decreases s.len(),
{
    if s.len() > 0 {
        lemma_set_extend_empty(s.drop_last());
    }
}

/// One locale tree flattened into dotted-key leaves (see `flatten_spec`).
fn flatten(root: &Json) -> (r: (Vec<(String, Leaf)>, Vec<(String, String)>))
    ensures
        leaves_view(r.0@) == flatten_spec(root@).leaves,
        pairs_view(r.1@) == flatten_spec(root@).errors,
{
    let mut leaves: Vec<(String, Leaf)> = Vec::new();
    let mut errors: Vec<(String, String)> = Vec::new();
    let mut path: Vec<String> = Vec::new();
    proof {
        assert(leaves_view(leaves@) =~= Seq::<(Seq<char>, LeafV)>::empty());
        assert(pairs_view(errors@) =~= Seq::<(Seq<char>, Seq<char>)>::empty());
        assert(views(path@) =~= Seq::<Seq<char>>::empty());
    }
    match root {
        Json::Object(fs) => {
            walk_fields_exec(fs, &mut path, &mut leaves, &mut errors);
        },
        _ => {},
    }
    (leaves, errors)
}

/// `a` without the elements of `b`, in the order of `a`.
pub open spec fn minus(a: Seq<Seq<char>>, b: Seq<Seq<char>>) -> Seq<Seq<char>>
    decreases a.len(),
{
    if a.len() == 0 {
        Seq::empty()
    } else {
        let m = minus(a.drop_last(), b);
        if b.contains(a.last()) {
            m
        } else {
            m.push(a.last())
        }
    }
}

/// The placeholders other than `count`, the implicit plural argument (whether a
/// translation literally interpolates it is a translation choice, not drift).
pub open spec fn non_count_spec(s: Seq<Seq<char>>) -> Seq<Seq<char>> {
    minus(s, seq!["count"@])
}

/// One diagnostic per item, reading `pre`, the item, `post`.
pub open spec fn each_diag(
    items: Seq<Seq<char>>,
    sev: Severity,
    loc: Seq<char>,
    key: Seq<char>,
    pre: Seq<char>,
    post: Seq<char>,
) -> Seq<DiagV>
    decreases items.len(),
{
    if items.len() == 0 {
        Seq::empty()
    } else {
        each_diag(items.drop_last(), sev, loc, key, pre, post).push(diag(sev, loc, key, pre + items.last() + post))
    }
}

pub open spec fn kind_label_spec(k: LeafKind) -> Seq<char> {
    match k {
        LeafKind::Plain => "a plain string"@,
        LeafKind::Plural => "a $plural"@,
        LeafKind::Select => "a $select"@,
    }
}

pub fn kind_label(k: LeafKind) -> (r: &'static str)
    ensures
        r@ == kind_label_spec(k),
{
    match k {
        LeafKind::Plain => "a plain string",
        LeafKind::Plural => "a $plural",
        LeafKind::Select => "a $select",
    }
}

pub open spec fn or_question(o: Option<Seq<char>>) -> Seq<char> {
    match o {
        Some(s) => s,
        None => "?"@,
    }
}

/// For a `$select`, the selector and the case set are caller-facing and
/// language-independent: every locale must match the canonical.
pub open spec fn select_diags(loc: Seq<char>, key: Seq<char>, canon: LeafV, leaf: LeafV) -> Seq<DiagV> {
    (if leaf.selector != canon.selector {
        seq![diag(Severity::Error, loc, key, "select param '"@ + or_question(leaf.selector) + "' differs from canonical '"@ + or_question(canon.selector) + "'"@)]
    } else {
        Seq::empty()
    }) + each_diag(minus(canon.branches, leaf.branches), Severity::Error, loc, key, "missing select case '"@, "' (the caller can pass it)"@)
        + each_diag(minus(leaf.branches, canon.branches), Severity::Warning, loc, key, "select case '"@, "' is not in the canonical locale \u{2014} it's unreachable"@)
}

/// How the leaf at `key` of locale `loc` compares with the canonical leaf.
pub open spec fn compare_leaf(loc: Seq<char>, key: Seq<char>, canon: LeafV, leaves: Seq<(Seq<char>, LeafV)>) -> Seq<DiagV> {
    match fields_get(leaves, key) {
        None => seq![diag(Severity::Error, loc, key, "missing translation"@)],
        Some(leaf) => if leaf.kind != canon.kind {
            seq![diag(Severity::Error, loc, key, "kind mismatch: canonical is "@ + kind_label_spec(canon.kind) + ", here it's "@ + kind_label_spec(leaf.kind))]
        } else {
            let cp = non_count_spec(canon.placeholders);
            let lp = non_count_spec(leaf.placeholders);
            each_diag(minus(lp, cp), Severity::Error, loc, key, "placeholder {{"@, "}} is not in the canonical string \u{2014} it will be undefined at runtime"@)
                + each_diag(minus(cp, lp), Severity::Warning, loc, key, "placeholder {{"@, "}} from the canonical string is not used here"@)
                + if canon.kind == LeafKind::Select {
                select_diags(loc, key, canon, leaf)
            } else {
                Seq::empty()
            }
        },
    }
}

/// Every canonical leaf compared, in order.
pub open spec fn compare_all(loc: Seq<char>, canon: Seq<(Seq<char>, LeafV)>, leaves: Seq<(Seq<char>, LeafV)>) -> Seq<DiagV>
    decreases canon.len(),
{
    if canon.len() == 0 {
        Seq::empty()
    } else {
        compare_all(loc, canon.drop_last(), leaves) + compare_leaf(loc, canon.last().0, canon.last().1, leaves)
    }
}

/// A warning for every key of `loc` that the canonical locale lacks.
pub open spec fn extras(loc: Seq<char>, leaves: Seq<(Seq<char>, LeafV)>, canon: Seq<(Seq<char>, LeafV)>) -> Seq<DiagV>
    decreases leaves.len(),
{
    if leaves.len() == 0 {
        Seq::empty()
    } else {
        extras(loc, leaves.drop_last(), canon) + if fields_get(canon, leaves.last().0) is None {
            seq![diag(Severity::Warning, loc, leaves.last().0, "key is not in the canonical locale \u{2014} it will be ignored"@)]
        } else {
            Seq::empty()
        }
    }
}

/// The category names of `tag`'s small and mod-100 tables.
pub open spec fn small_names(tag: Seq<char>) -> Seq<Seq<char>> {
    Seq::new(100, |i: int| cat_name_spec(cldr_category(tag, i as u64)))
}

pub open spec fn modulo_names(tag: Seq<char>) -> Seq<Seq<char>> {
    Seq::new(100, |i: int| cat_name_spec(cldr_category(tag, (100 + i) as u64)))
}

/// The categories `tag`'s integer rules can produce, ascending.
pub open spec fn reachable_cats(tag: Seq<char>) -> Seq<Seq<char>> {
    set_extend(set_extend(Seq::empty(), small_names(tag)), modulo_names(tag))
}

/// Every plural must provide each category its locale's integer rules can
/// produce (Polish needs `few` / `many`), or a count hits a blank string.
pub open spec fn coverage(loc: Seq<char>, leaves: Seq<(Seq<char>, LeafV)>, reach: Seq<Seq<char>>) -> Seq<DiagV>
    decreases leaves.len(),
{
    if leaves.len() == 0 {
        Seq::empty()
    } else {
        coverage(loc, leaves.drop_last(), reach) + if leaves.last().1.kind == LeafKind::Plural {
            each_diag(minus(reach, leaves.last().1.branches), Severity::Error, loc, leaves.last().0, "missing plural form '"@, "' that '"@ + loc + "' requires"@)
        } else {
            Seq::empty()
        }
    }
}

/// The flatten errors of a locale, as error diagnostics.
pub open spec fn error_diags(loc: Seq<char>, errs: Seq<(Seq<char>, Seq<char>)>) -> Seq<DiagV>
    decreases errs.len(),
{
    if errs.len() == 0 {
        Seq::empty()
    } else {
        error_diags(loc, errs.drop_last()).push(diag(Severity::Error, loc, errs.last().0, errs.last().1))
    }
}

/// Everything reported for a non-canonical locale.
pub open spec fn locale_diags(loc: Seq<char>, root: JsonV, canon: Seq<(Seq<char>, LeafV)>) -> Seq<DiagV> {
    let fl = flatten_spec(root);
    error_diags(loc, fl.errors) + compare_all(loc, canon, fl.leaves) + extras(loc, fl.leaves, canon) + coverage(loc, fl.leaves, reachable_cats(loc))
}

/// The reports of every non-canonical locale, in order.
pub open spec fn others(canonical: Seq<char>, canon: Seq<(Seq<char>, LeafV)>, locales: Seq<(Seq<char>, JsonV)>) -> Seq<DiagV>
    decreases locales.len(),
{
    if locales.len() == 0 {
        Seq::empty()
    } else {
        others(canonical, canon, locales.drop_last()) + if locales.last().0 == canonical {
            Seq::empty()
        } else {
            locale_diags(locales.last().0, locales.last().1, canon)
        }
    }
}

/// The canonical locale's tree (meaningful when it is present).
pub open spec fn canonical_root(canonical: Seq<char>, locales: Seq<(Seq<char>, JsonV)>) -> JsonV {
    fields_get(locales, canonical).unwrap()
}

/// All diagnostics of a catalog: the canonical locale's own malformed shapes and
/// plural gaps, then each other locale in order.
pub open spec fn check_diags(canonical: Seq<char>, locales: Seq<(Seq<char>, JsonV)>) -> Seq<DiagV> {
    let cf = flatten_spec(canonical_root(canonical, locales));
    error_diags(canonical, cf.errors) + coverage(canonical, cf.leaves, reachable_cats(canonical)) + others(canonical, cf.leaves, locales)
}

/// Some locale of the catalog has no usable plural table.
pub open spec fn some_table_fails(locales: Seq<(Seq<char>, JsonV)>) -> bool {
    exists|i: int| 0 <= i < locales.len() && #[trigger] plural_table_fails(locales[i].0)
}

fn minus_exec(a: &Vec<String>, b: &Vec<String>) -> (r: Vec<String>)
    ensures
        views(r@) == minus(views(a@), views(b@)),
{
    let ghost av = views(a@);
    let mut r: Vec<String> = Vec::new();
    let mut i: usize = 0;
    proof {
        assert(views(r@) =~= minus(av.take(0), views(b@)));
    }
    while i < a.len()
        invariant
            i <= a@.len(),
            av == views(a@),
            views(r@) == minus(av.take(i as int), views(b@)),
        decreases a@.len() - i,
    {
        proof {
            assert(av.take(i + 1).drop_last() =~= av.take(i as int));
            assert(av.take(i + 1).last() == a@[i as int]@);
        }
        if !contains_str(b, a[i].as_str()) {
            let ghost before = r@;
            r.push(copy_string(&a[i]));
            proof {
                assert(views(r@) =~= views(before).push(a@[i as int]@));
            }
        }
        i = i + 1;
    }
    proof {
        assert(av.take(i as int) =~= av);
    }
    r
}

pub fn non_count(s: &Vec<String>) -> (r: Vec<String>)
    ensures
        views(r@) == non_count_spec(views(s@)),
{
    let mut count: Vec<String> = Vec::new();
    count.push(owned("count"));
    proof {
        assert(views(count@) =~= seq!["count"@]);
    }
    minus_exec(s, &count)
}

fn push_diag(diags: &mut Vec<Diagnostic>, d: Diagnostic)
    ensures
        diags_view(final(diags)@) == diags_view(old(diags)@).push(d@),
{
    let ghost before = diags@;
    let ghost dv = d@;
    diags.push(d);
    proof {
        assert(diags_view(diags@) =~= diags_view(before).push(dv));
    }
}

fn push_each(
    diags: &mut Vec<Diagnostic>,
    items: &Vec<String>,
    sev: Severity,
    loc: &str,
    key: &str,
    pre: &str,
    post: &str,
)
    ensures
        diags_view(final(diags)@) == diags_view(old(diags)@) + each_diag(views(items@), sev, loc@, key@, pre@, post@),
{
    let ghost iv = views(items@);
    let ghost start = diags_view(diags@);
    let mut i: usize = 0;
    proof {
        assert(start + each_diag(iv.take(0), sev, loc@, key@, pre@, post@) =~= start);
    }
    while i < items.len()
        invariant
            i <= items@.len(),
            iv == views(items@),
            start == diags_view(old(diags)@),
            diags_view(diags@) == start + each_diag(iv.take(i as int), sev, loc@, key@, pre@, post@),
        decreases items@.len() - i,
    {
        proof {
            assert(iv.take(i + 1).drop_last() =~= iv.take(i as int));
            assert(iv.take(i + 1).last() == items@[i as int]@);
        }
        let message = concat3(pre, items[i].as_str(), post);
        let d = Diagnostic { severity: sev, locale: owned(loc), key: owned(key), message };
        push_diag(diags, d);
        proof {
            assert(diags_view(diags@) =~= start + each_diag(iv.take(i + 1), sev, loc@, key@, pre@, post@));
        }
        i = i + 1;
    }
    proof {
        assert(iv.take(i as int) =~= iv);
    }
}

fn push_error_diags(diags: &mut Vec<Diagnostic>, loc: &str, errors: &Vec<(String, String)>)
    ensures
        diags_view(final(diags)@) == diags_view(old(diags)@) + error_diags(loc@, pairs_view(errors@)),
{
    let ghost ev = pairs_view(errors@);
    let ghost start = diags_view(diags@);
    let mut i: usize = 0;
    proof {
        assert(start + error_diags(loc@, ev.take(0)) =~= start);
    }
    while i < errors.len()
        invariant
            i <= errors@.len(),
            ev == pairs_view(errors@),
            start == diags_view(old(diags)@),
            diags_view(diags@) == start + error_diags(loc@, ev.take(i as int)),
        decreases errors@.len() - i,
    {
        proof {
            assert(ev.take(i + 1).drop_last() =~= ev.take(i as int));
            assert(ev.take(i + 1).last() == (errors@[i as int].0@, errors@[i as int].1@));
        }
        let d = Diagnostic::error(loc, errors[i].0.as_str(), copy_string(&errors[i].1));
        push_diag(diags, d);
        proof {
            assert(diags_view(diags@) =~= start + error_diags(loc@, ev.take(i + 1)));
        }
        i = i + 1;
    }
    proof {
        assert(ev.take(i as int) =~= ev);
    }
}

fn opt_eq(a: &Option<String>, b: &Option<String>) -> (r: bool)
    ensures
        r == (opt_view(*a) == opt_view(*b)),
{
    match (a, b) {
        (Some(x), Some(y)) => str_eq(x.as_str(), y.as_str()),
        (None, None) => true,
        _ => false,
    }
}

fn or_question_exec(o: &Option<String>) -> (r: String)
    ensures
        r@ == or_question(opt_view(*o)),
{
    match o {
        Some(s) => copy_string(s),
        None => owned("?"),
    }
}

/// Looks `key` up among flattened leaves.
fn leaf_get<'a>(leaves: &'a Vec<(String, Leaf)>, key: &str) -> (r: Option<&'a Leaf>)
    ensures
        r matches Some(l) ==> fields_get(leaves_view(leaves@), key@) == Some(l@),
        r is None ==> fields_get(leaves_view(leaves@), key@) is None,
{
    proof {
        lemma_map_vals_get(kv_view(leaves@), |l: Leaf| l@, key@);
        lemma_fields_index(kv_view(leaves@), key@);
    }
    match assoc_index(leaves, key) {
        Some(i) => Some(&leaves[i].1),
        None => None,
    }
}

fn compare_leaf_exec(diags: &mut Vec<Diagnostic>, loc: &str, key: &str, canon: &Leaf, leaves: &Vec<(String, Leaf)>)
    ensures
        diags_view(final(diags)@) == diags_view(old(diags)@) + compare_leaf(loc@, key@, canon@, leaves_view(leaves@)),
{
    let ghost start = diags_view(diags@);
    match leaf_get(leaves, key) {
        None => {
            push_diag(diags, Diagnostic::error(loc, key, owned("missing translation")));
            proof {
                assert(diags_view(diags@) =~= start + compare_leaf(loc@, key@, canon@, leaves_view(leaves@)));
            }
        },
        Some(leaf) => {
            if leaf.kind != canon.kind {
                let mut m = owned("kind mismatch: canonical is ");
                push_str(&mut m, kind_label(canon.kind));
                push_str(&mut m, ", here it's ");
                push_str(&mut m, kind_label(leaf.kind));
                push_diag(diags, Diagnostic::error(loc, key, m));
                proof {
                    assert(diags_view(diags@) =~= start + compare_leaf(loc@, key@, canon@, leaves_view(leaves@)));
                }
            } else {
                let cp = non_count(&canon.placeholders);
                let lp = non_count(&leaf.placeholders);
                let extra = minus_exec(&lp, &cp);
                push_each(diags, &extra, Severity::Error, loc, key, "placeholder {{", "}} is not in the canonical string \u{2014} it will be undefined at runtime");
                let dropped = minus_exec(&cp, &lp);
                let ghost mid = diags_view(diags@);
                push_each(diags, &dropped, Severity::Warning, loc, key, "placeholder {{", "}} from the canonical string is not used here");
                let ghost mid2 = diags_view(diags@);
                if canon.kind == LeafKind::Select {
                    if !opt_eq(&leaf.selector, &canon.selector) {
                        let mut m = owned("select param '");
                        push_str(&mut m, or_question_exec(&leaf.selector).as_str());
                        push_str(&mut m, "' differs from canonical '");
                        push_str(&mut m, or_question_exec(&canon.selector).as_str());
                        push_str(&mut m, "'");
                        push_diag(diags, Diagnostic::error(loc, key, m));
                    }
                    let ghost mid3 = diags_view(diags@);
                    let missing = minus_exec(&canon.branches, &leaf.branches);
                    push_each(diags, &missing, Severity::Error, loc, key, "missing select case '", "' (the caller can pass it)");
                    let unreachable = minus_exec(&leaf.branches, &canon.branches);
                    push_each(diags, &unreachable, Severity::Warning, loc, key, "select case '", "' is not in the canonical locale \u{2014} it's unreachable");
                    proof {
                        assert(diags_view(diags@) =~= start + compare_leaf(loc@, key@, canon@, leaves_view(leaves@)));
                    }
                } else {
                    proof {
                        assert(diags_view(diags@) =~= start + compare_leaf(loc@, key@, canon@, leaves_view(leaves@)));
                    }
                }
            }
        },
    }
}

fn compare_all_exec(diags: &mut Vec<Diagnostic>, loc: &str, canon: &Vec<(String, Leaf)>, leaves: &Vec<(String, Leaf)>)
    ensures
        diags_view(final(diags)@) == diags_view(old(diags)@) + compare_all(loc@, leaves_view(canon@), leaves_view(leaves@)),
{
    let ghost cv = leaves_view(canon@);
    let ghost lv = leaves_view(leaves@);
    let ghost start = diags_view(diags@);
    let mut i: usize = 0;
    proof {
        assert(start + compare_all(loc@, cv.take(0), lv) =~= start);
    }
    while i < canon.len()
        invariant
            i <= canon@.len(),
            cv == leaves_view(canon@),
            lv == leaves_view(leaves@),
            start == diags_view(old(diags)@),
            diags_view(diags@) == start + compare_all(loc@, cv.take(i as int), lv),
        decreases canon@.len() - i,
    {
        proof {
            assert(cv.take(i + 1).drop_last() =~= cv.take(i as int));
            assert(cv.take(i + 1).last() == (canon@[i as int].0@, canon@[i as int].1@));
        }
        let ghost before = diags_view(diags@);
        compare_leaf_exec(diags, loc, canon[i].0.as_str(), &canon[i].1, leaves);
        proof {
            assert(diags_view(diags@) =~= start + compare_all(loc@, cv.take(i + 1), lv));
        }
        i = i + 1;
    }
    proof {
        assert(cv.take(i as int) =~= cv);
    }
}

fn extras_exec(diags: &mut Vec<Diagnostic>, loc: &str, leaves: &Vec<(String, Leaf)>, canon: &Vec<(String, Leaf)>)
    ensures
        diags_view(final(diags)@) == diags_view(old(diags)@) + extras(loc@, leaves_view(leaves@), leaves_view(canon@)),
{
    let ghost cv = leaves_view(canon@);
    let ghost lv = leaves_view(leaves@);
    let ghost start = diags_view(diags@);
    let mut i: usize = 0;
    proof {
        assert(start + extras(loc@, lv.take(0), cv) =~= start);
    }
    while i < leaves.len()
        invariant
            i <= leaves@.len(),
            cv == leaves_view(canon@),
            lv == leaves_view(leaves@),
            start == diags_view(old(diags)@),
            diags_view(diags@) == start + extras(loc@, lv.take(i as int), cv),
        decreases leaves@.len() - i,
    {
        proof {
            assert(lv.take(i + 1).drop_last() =~= lv.take(i as int));
            assert(lv.take(i + 1).last() == (leaves@[i as int].0@, leaves@[i as int].1@));
        }
        if leaf_get(canon, leaves[i].0.as_str()).is_none() {
            push_diag(diags, Diagnostic::warning(loc, leaves[i].0.as_str(), owned("key is not in the canonical locale \u{2014} it will be ignored")));
        }
        proof {
            assert(diags_view(diags@) =~= start + extras(loc@, lv.take(i + 1), cv));
        }
        i = i + 1;
    }
    proof {
        assert(lv.take(i as int) =~= lv);
    }
}

fn coverage_exec(diags: &mut Vec<Diagnostic>, loc: &str, leaves: &Vec<(String, Leaf)>, reach: &Vec<String>)
    ensures
        diags_view(final(diags)@) == diags_view(old(diags)@) + coverage(loc@, leaves_view(leaves@), views(reach@)),
{
    let ghost lv = leaves_view(leaves@);
    let ghost start = diags_view(diags@);
    let post = concat3("' that '", loc, "' requires");
    let mut i: usize = 0;
    proof {
        assert(start + coverage(loc@, lv.take(0), views(reach@)) =~= start);
    }
    while i < leaves.len()
        invariant
            i <= leaves@.len(),
            lv == leaves_view(leaves@),
            start == diags_view(old(diags)@),
            post@ == "' that '"@ + loc@ + "' requires"@,
            diags_view(diags@) == start + coverage(loc@, lv.take(i as int), views(reach@)),
        decreases leaves@.len() - i,
    {
        proof {
            assert(lv.take(i + 1).drop_last() =~= lv.take(i as int));
            assert(lv.take(i + 1).last() == (leaves@[i as int].0@, leaves@[i as int].1@));
        }
        if leaves[i].1.kind == LeafKind::Plural {
            let missing = minus_exec(reach, &leaves[i].1.branches);
            push_each(diags, &missing, Severity::Error, loc, leaves[i].0.as_str(), "missing plural form '", post.as_str());
        }
        proof {
            assert(diags_view(diags@) =~= start + coverage(loc@, lv.take(i + 1), views(reach@)));
        }
        i = i + 1;
    }
    proof {
        assert(lv.take(i as int) =~= lv);
    }
}

/// Reports every plural leaf of `locale` that lacks a category the locale's
/// integer rules can produce. Fails, reporting nothing, when the locale has no
/// usable plural table.
pub fn check_plural_coverage(locale: &str, leaves: &Vec<(String, Leaf)>, diags: &mut Vec<Diagnostic>) -> (r: Result<(), Error>)
    ensures
        r is Ok <==> !plural_table_fails(locale@),
        r is Ok ==> diags_view(final(diags)@) == diags_view(old(diags)@) + coverage(locale@, leaves_view(leaves@), reachable_cats(locale@)),
        r matches Err(e) ==> plural_error_for(e, locale@) && final(diags)@ == old(diags)@,
{
    let table = match build_plural_table(locale) {
        Ok(t) => t,
        Err(e) => return Err(e),
    };
    let mut reach: Vec<String> = Vec::new();
    proof {
        assert(views(reach@) =~= Seq::<Seq<char>>::empty());
        assert(views(table.small@) =~= small_names(locale@));
        assert(views(table.modulo@) =~= modulo_names(locale@));
    }
    set_add_all(&mut reach, &table.small);
    set_add_all(&mut reach, &table.modulo);
    coverage_exec(diags, locale, leaves, &reach);
    Ok(())
}

/// Validates the whole catalog `locales` (locale → tree) against the canonical
/// locale's shape. Fails when the canonical locale is missing, and when some
/// locale has no usable plural table (the canonical one first, then the others
/// in order); otherwise reports the canonical key count and every diagnostic.
pub fn check(canonical: &str, locales: &Vec<(String, Json)>) -> (r: Result<Report, Error>)
    requires
        catalog_wf(view_fields(locales@)),
    ensures
        fields_get(view_fields(locales@), canonical@) is None ==> (r matches Err(Error::CanonicalNotFound { locale }) && locale@ == canonical@),
        fields_get(view_fields(locales@), canonical@) is Some ==> (r is Ok <==> !some_table_fails(view_fields(locales@))),
        r matches Ok(rep) ==> rep.key_count == flatten_spec(canonical_root(canonical@, view_fields(locales@))).leaves.len()
            && diags_view(rep.diagnostics@) == check_diags(canonical@, view_fields(locales@)),
        r matches Err(e) ==> (fields_get(view_fields(locales@), canonical@) is None) || (plural_table_fails(canonical@) && plural_error_for(e, canonical@)) || (!plural_table_fails(canonical@) && exists|i: int| 0 <= i < view_fields(locales@).len() && plural_table_fails(#[trigger] view_fields(locales@)[i].0) && plural_error_for(e, view_fields(locales@)[i].0) && forall|j: int| 0 <= j < i ==> !plural_table_fails(#[trigger] view_fields(locales@)[j].0)),
{
    let ghost lv = view_fields(locales@);
    proof {
        lemma_view_fields(locales@);
        lemma_fields_index(lv, canonical@);
    }
    let ci = match field_index_of(locales, canonical) {
        Some(i) => i,
        None => return Err(Error::CanonicalNotFound { locale: owned(canonical) }),
    };
    let canon_root = &locales[ci].1;
    let mut diags: Vec<Diagnostic> = Vec::new();
    proof {
        assert(diags_view(diags@) =~= Seq::<DiagV>::empty());
    }
    let (canon_leaves, canon_errors) = flatten(canon_root);
    push_error_diags(&mut diags, canonical, &canon_errors);
    match check_plural_coverage(canonical, &canon_leaves, &mut diags) {
        Ok(()) => {},
        Err(e) => return Err(e),
    }
    let ghost cv = leaves_view(canon_leaves@);
    let ghost prefix = diags_view(diags@);
    let mut i: usize = 0;
    proof {
        assert(prefix + others(canonical@, cv, lv.take(0)) =~= prefix);
    }
    while i < locales.len()
        invariant
            i <= locales@.len(),
            lv == view_fields(locales@),
            lv.len() == locales@.len(),
            forall|j: int| 0 <= j < locales@.len() ==> #[trigger] lv[j] == (locales@[j].0@, json_view(locales@[j].1)),
            cv == leaves_view(canon_leaves@),
            fields_get(lv, canonical@) is Some,
            !plural_table_fails(canonical@),
            diags_view(diags@) == prefix + others(canonical@, cv, lv.take(i as int)),
            forall|j: int| 0 <= j < i ==> !plural_table_fails(#[trigger] lv[j].0),
        decreases locales@.len() - i,
    {
        proof {
            assert(lv.take(i + 1).drop_last() =~= lv.take(i as int));
            assert(lv.take(i + 1).last() == lv[i as int]);
        }
        let loc = locales[i].0.as_str();
        if str_eq(loc, canonical) {
            proof {
                assert(diags_view(diags@) =~= prefix + others(canonical@, cv, lv.take(i + 1)));
            }
        } else {
            let (leaves, errors) = flatten(&locales[i].1);
            let ghost before = diags_view(diags@);
            push_error_diags(&mut diags, loc, &errors);
            compare_all_exec(&mut diags, loc, &canon_leaves, &leaves);
            extras_exec(&mut diags, loc, &leaves, &canon_leaves);
            match check_plural_coverage(loc, &leaves, &mut diags) {
                Ok(()) => {},
                Err(e) => {
                    proof {
                        assert(plural_table_fails(lv[i as int].0));
                    }
                    return Err(e);
                },
            }
            proof {
                assert(diags_view(diags@) =~= prefix + others(canonical@, cv, lv.take(i + 1)));
            }
        }
        i = i + 1;
    }
    proof {
        assert(lv.take(i as int) =~= lv);
        assert(prefix =~= error_diags(canonical@, flatten_spec(lv[ci as int].1).errors) + coverage(canonical@, flatten_spec(lv[ci as int].1).leaves, reachable_cats(canonical@)));
        assert forall|j: int| 0 <= j < lv.len() implies !plural_table_fails(#[trigger] lv[j].0) by {}
    }
    let key_count = canon_leaves.len();
    Ok(Report { key_count, diagnostics: diags })
}

proof fn lemma_minus_contains(a: Seq<Seq<char>>, b: Seq<Seq<char>>, x: Seq<char>)
    requires
        a.contains(x),
        !b.contains(x),
    ensures
        minus(a, b).contains(x),
    decreases a.len(),
{
    let m = minus(a.drop_last(), b);
    if a.last() == x {
        assert(m.push(x)[m.len() as int] == x);
    } else {
        let j = choose|j: int| 0 <= j < a.len() && a[j] == x;
        assert(a.drop_last()[j] == x);
        lemma_minus_contains(a.drop_last(), b, x);
        let k = choose|k: int| 0 <= k < m.len() && m[k] == x;
        if !b.contains(a.last()) {
            assert(m.push(a.last())[k] == x);
        }
    }
}

proof fn lemma_each_diag_contains(
    items: Seq<Seq<char>>,
    sev: Severity,
    loc: Seq<char>,
    key: Seq<char>,
    pre: Seq<char>,
    post: Seq<char>,
    x: Seq<char>,
)
    requires
        items.contains(x),
    ensures
        each_diag(items, sev, loc, key, pre, post).contains(diag(sev, loc, key, pre + x + post)),
    decreases items.len(),
{
    let prev = each_diag(items.drop_last(), sev, loc, key, pre, post);
    let r = each_diag(items, sev, loc, key, pre, post);
    if items.last() == x {
        assert(r[prev.len() as int] == diag(sev, loc, key, pre + x + post));
    } else {
        let j = choose|j: int| 0 <= j < items.len() && items[j] == x;
        assert(items.drop_last()[j] == x);
        lemma_each_diag_contains(items.drop_last(), sev, loc, key, pre, post, x);
        let k = choose|k: int| 0 <= k < prev.len() && prev[k] == diag(sev, loc, key, pre + x + post);
        assert(r[k] == prev[k]);
    }
}

proof fn lemma_coverage_contains(loc: Seq<char>, leaves: Seq<(Seq<char>, LeafV)>, reach: Seq<Seq<char>>, i: int, c: Seq<char>)
    requires
        0 <= i < leaves.len(),
        leaves[i].1.kind == LeafKind::Plural,
        reach.contains(c),
        !leaves[i].1.branches.contains(c),
    ensures
        coverage(loc, leaves, reach).contains(
            diag(Severity::Error, loc, leaves[i].0, "missing plural form '"@ + c + ("' that '"@ + loc + "' requires"@)),
        ),
    decreases leaves.len(),
{
    let dg = diag(Severity::Error, loc, leaves[i].0, "missing plural form '"@ + c + ("' that '"@ + loc + "' requires"@));
    let ld = leaves.drop_last();
    let prev = coverage(loc, ld, reach);
    if i == leaves.len() - 1 {
        lemma_minus_contains(reach, leaves[i].1.branches, c);
        let e = each_diag(minus(reach, leaves[i].1.branches), Severity::Error, loc, leaves[i].0, "missing plural form '"@, "' that '"@ + loc + "' requires"@);
        lemma_each_diag_contains(minus(reach, leaves[i].1.branches), Severity::Error, loc, leaves[i].0, "missing plural form '"@, "' that '"@ + loc + "' requires"@, c);
        let k = choose|k: int| 0 <= k < e.len() && e[k] == dg;
        assert((prev + e)[prev.len() + k] == dg);
    } else {
        assert(ld[i] == leaves[i]);
        lemma_coverage_contains(loc, ld, reach, i, c);
        let k = choose|k: int| 0 <= k < prev.len() && prev[k] == dg;
        let tail = if leaves.last().1.kind == LeafKind::Plural {
            each_diag(minus(reach, leaves.last().1.branches), Severity::Error, loc, leaves.last().0, "missing plural form '"@, "' that '"@ + loc + "' requires"@)
        } else {
            Seq::empty()
        };
        assert(coverage(loc, leaves, reach) == prev + tail);
        assert((prev + tail)[k] == dg);
    }
}

/// The categories a locale requires include every category its integer rules
/// give to some `n` below 200, and, when its plural table is usable, to every
/// `n` below 10000.
pub proof fn law_reachable_covers_counts(tag: Seq<char>, n: u64)
    requires
        n < 200 || (n < 10000 && !plural_table_fails(tag)),
    ensures
        reachable_cats(tag).contains(cat_name_spec(cldr_category(tag, n))),
{
    let first = set_extend(Seq::empty(), small_names(tag));
    lemma_set_extend_contains(Seq::empty(), small_names(tag));
    lemma_set_extend_contains(first, modulo_names(tag));
    let c = cat_name_spec(cldr_category(tag, n));
    if n < 100 {
        assert(small_names(tag)[n as int] == c);
        assert(small_names(tag).contains(c));
        assert(first.contains(c));
    } else if n < 200 {
        assert(modulo_names(tag)[n - 100] == c);
        assert(modulo_names(tag).contains(c));
    } else {
        assert(steady_at(tag, n));
        reveal(steady_at);
        let r: int = (n % 100) as int;
        assert((100 + r) as u64 == (100 + n % 100) as u64);
        assert(modulo_names(tag)[r] == c);
        assert(modulo_names(tag).contains(c));
    }
}

/// Every plural leaf is checked against every category its locale's integer
/// rules can produce: if CLDR gives a count `n` (below 200, or below 10000 when
/// the locale's plural table is usable) a category the leaf lacks, the coverage
/// report holds an error for that leaf naming the missing category.
pub proof fn law_coverage_reports_missing_category(loc: Seq<char>, leaves: Seq<(Seq<char>, LeafV)>, i: int, n: u64)
    requires
        0 <= i < leaves.len(),
        leaves[i].1.kind == LeafKind::Plural,
        n < 200 || (n < 10000 && !plural_table_fails(loc)),
        !leaves[i].1.branches.contains(cat_name_spec(cldr_category(loc, n))),
    ensures
        coverage(loc, leaves, reachable_cats(loc)).contains(
            diag(
                Severity::Error,
                loc,
                leaves[i].0,
                "missing plural form '"@ + cat_name_spec(cldr_category(loc, n)) + ("' that '"@ + loc + "' requires"@),
            ),
        ),
{
    law_reachable_covers_counts(loc, n);
    lemma_coverage_contains(loc, leaves, reachable_cats(loc), i, cat_name_spec(cldr_category(loc, n)));
}

} // verus!
