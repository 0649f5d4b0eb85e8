//! The decisions of the command-line commands, apart from their file and
//! terminal I/O: what each target generates, which units an export holds,
//! which format and locale an import is for, and how a check is reported.

use vstd::prelude::*;
use crate::check::{diags_view, DiagV, Diagnostic, Report, Severity, count_sev};
use crate::config::{package_options, target_options, Package, Target, or_default};
use crate::emit::{case_named, emittable, emitter_for, known_lang, msgs_fold, upper_camel, validate_idents, ident_error, Case, Emitter};
use crate::emit::pkg::{files_view, render, render_spec};
use crate::emit::store::{react_ts_spec, store_ts_spec};
use crate::emit::swift::{swift_emit_spec, swift_error, swift_msgs};
use crate::emit::ts::ts_emit_spec;
use crate::error::Error;
use crate::exchange::{units_view, Unit, UnitV};
use crate::ir::{messages_view, Ir};
use crate::text::{copy_string, owned, seq_lt, str_eq, str_lt};

verus! {

/// Whether the IR meets what every emitter needs (see `emittable`).
pub fn check_emittable(ir: &Ir) -> (r: bool)
    ensures
        r == emittable(ir),
{
    let mut i: usize = 0;
    while i < ir.messages.len()
        invariant
            i <= ir.messages@.len(),
            forall|j: int| 0 <= j < i ==> #[trigger] ir.messages@[j].path@.len() > 0,
        decreases ir.messages@.len() - i,
    {
        if ir.messages[i].path.len() == 0 {
            return false;
        }
        i = i + 1;
    }
    let mut k: usize = 0;
    while k < ir.locales.len()
        invariant
            k <= ir.locales@.len(),
            forall|j: int| 0 <= j < ir.messages@.len() ==> #[trigger] ir.messages@[j].path@.len() > 0,
            forall|x: int| 0 <= x < k ==> #[trigger] crate::emit::has_table(ir, ir.locales@[x]@),
        decreases ir.locales@.len() - k,
    {
        let mut found: Option<usize> = None;
        let mut j: usize = 0;
        while j < ir.plural_rules.len()
            invariant
                j <= ir.plural_rules@.len(),
                k < ir.locales@.len(),
                found is None ==> forall|y: int| 0 <= y < j ==> ir.plural_rules@[y].0@ != ir.locales@[k as int]@,
                found matches Some(y) ==> y < ir.plural_rules@.len() && ir.plural_rules@[y as int].0@ == ir.locales@[k as int]@,
            decreases ir.plural_rules@.len() - j,
        {
            if found.is_none() && str_eq(ir.plural_rules[j].0.as_str(), ir.locales[k].as_str()) {
                found = Some(j);
            }
            j = j + 1;
        }
        match found {
            Some(y) => {
                proof {
                    assert(ir.plural_rules@[y as int].0@ == ir.locales@[k as int]@);
                    assert(crate::emit::has_table(ir, ir.locales@[k as int]@));
                }
            },
            None => {
                proof {
                    if emittable(ir) {
                        assert(crate::emit::has_table(ir, ir.locales@[k as int]@));
                        let j = choose|j: int| 0 <= j < ir.plural_rules@.len() && #[trigger] ir.plural_rules@[j].0@ == ir.locales@[k as int]@;
                        assert(ir.plural_rules@[j].0@ != ir.locales@[k as int]@);
                    }
                }
                return false;
            },
        }
        k = k + 1;
    }
    true
}

/// The code an emitter writes for a target language.
pub open spec fn target_text(ir: &Ir, lang: Seq<char>, callable: bool, c: Case, core: Seq<char>, store: Seq<char>, ty: Seq<char>) -> Seq<char> {
    if lang == "typescript"@ || lang == "ts"@ {
        ts_emit_spec(callable, c, ty, "create"@ + ty, ir)
    } else if lang == "swift"@ {
        swift_emit_spec(c, ty, ir)
    } else if lang == "store"@ {
        store_ts_spec(core, ty)
    } else {
        react_ts_spec(store, ty)
    }
}

/// The outcome of generating one target: its case is parsed, the identifiers
/// validated under it, an emitter chosen for its language, validated and run.
pub open spec fn generated(ir: &Ir, t: &Target, r: Result<String, Error>) -> bool {
    let msgs = messages_view(ir.messages@);
    let ty = upper_camel(or_default(t.binding, "stele"@));
    match case_named(or_default(t.case, "camel"@)) {
        None => r matches Err(Error::UnknownCase { case }) && case@ == or_default(t.case, "camel"@),
        Some(c) => match msgs_fold(msgs, msgs.len() as int, c) {
            Err(x) => r matches Err(e) && ident_error(e, x),
            Ok(_) => if !known_lang(t.lang@) {
                r matches Err(Error::UnknownTarget { lang }) && lang@ == t.lang@
            } else if t.lang@ == "swift"@ && swift_msgs(msgs, msgs.len() as int, ty) is Err {
                r matches Err(e) && swift_error(e, swift_msgs(msgs, msgs.len() as int, ty)->Err_0)
            } else {
                r matches Ok(s) && s@ == target_text(
                    ir,
                    t.lang@,
                    t.callable,
                    c,
                    or_default(t.core, "./stele.gen"@),
                    or_default(t.store, "./stele.store"@),
                    ty,
                )
            },
        },
    }
}

/// The code of one generation target (see `generated`).
pub fn generate_target(ir: &Ir, t: &Target) -> (r: Result<String, Error>)
    requires
        emittable(ir),
    ensures
        generated(ir, t, r),
{
    proof {
        reveal_strlit("typescript");
        reveal_strlit("ts");
        reveal_strlit("swift");
        reveal_strlit("store");
        reveal_strlit("react");
    }
    let opts = match target_options(t) {
        Ok(o) => o,
        Err(e) => return Err(e),
    };
    match validate_idents(ir, opts.case) {
        Ok(()) => {},
        Err(e) => return Err(e),
    }
    let emitter = match emitter_for(t.lang.as_str(), &opts) {
        Some(e) => e,
        None => return Err(Error::UnknownTarget { lang: copy_string(&t.lang) }),
    };
    match emitter.validate(ir) {
        Ok(()) => {},
        Err(e) => return Err(e),
    }
    let code = emitter.emit(ir);
    proof {
        let c = opts.case;
        let ty = upper_camel(or_default(t.binding, "stele"@));
        assert(case_named(or_default(t.case, "camel"@)) == Some(c));
        assert(opts.binding.ty@ == ty);
        assert(known_lang(t.lang@));
        if t.lang@ == "typescript"@ || t.lang@ == "ts"@ {
            assert(emitter is Ts);
        } else if t.lang@ == "swift"@ {
            assert(emitter is Swift);
            assert(swift_msgs(messages_view(ir.messages@), ir.messages@.len() as int, ty) is Ok);
        } else if t.lang@ == "store"@ {
            assert(emitter is Store);
        } else {
            assert(emitter is React);
        }
        assert(code@ == target_text(ir, t.lang@, t.callable, c, or_default(t.core, "./stele.gen"@), or_default(t.store, "./stele.store"@), ty));
        assert(msgs_fold(messages_view(ir.messages@), ir.messages@.len() as int, c) is Ok);
        let msgs = messages_view(ir.messages@);
        match case_named(or_default(t.case, "camel"@)) {
            Some(c2) => {
                assert(c2 == c);
                match msgs_fold(msgs, msgs.len() as int, c2) {
                    Ok(_) => {
                        assert(known_lang(t.lang@));
                        if t.lang@ == "swift"@ {
                            reveal_strlit("typescript");
                            reveal_strlit("ts");
                            reveal_strlit("swift");
                            assert("swift"@.len() == 5 && "typescript"@.len() == 10 && "ts"@.len() == 2);
                            assert(emitter is Swift);
                            assert(swift_msgs(msgs, msgs.len() as int, ty) is Ok);
                        }
                    },
                    Err(_) => {
                        assert(false);
                    },
                }
            },
            None => {
                assert(false);
            },
        }
        assert(generated(ir, t, Ok::<String, Error>(code)));
    }
    Ok(code)
}

/// The outcome of generating the package target.
pub open spec fn packaged(ir: &Ir, p: &Package, r: Result<Vec<(String, String)>, Error>) -> bool {
    let msgs = messages_view(ir.messages@);
    match case_named(or_default(p.case, "camel"@)) {
        None => r matches Err(Error::UnknownCase { case }) && case@ == or_default(p.case, "camel"@),
        Some(c) => match msgs_fold(msgs, msgs.len() as int, c) {
            Err(x) => r matches Err(e) && ident_error(e, x),
            Ok(_) => r matches Ok(files) && files_view(files@) == render_spec(
                ir,
                p.name@,
                or_default(p.version, "0.0.0"@),
                p.store,
                p.react,
                p.callable,
                c,
                upper_camel(or_default(p.binding, "stele"@)),
            ),
        },
    }
}

/// The files of the package target (see `packaged`).
pub fn generate_package(ir: &Ir, p: &Package) -> (r: Result<Vec<(String, String)>, Error>)
    requires
        emittable(ir),
    ensures
        packaged(ir, p, r),
{
    let opts = match package_options(p) {
        Ok(o) => o,
        Err(e) => return Err(e),
    };
    match validate_idents(ir, opts.case) {
        Ok(()) => {},
        Err(e) => return Err(e),
    }
    Ok(render(ir, &opts))
}

/// An export must target another locale than the canonical one.
pub fn check_export_locale(locale: &str, canonical: &str) -> (r: Result<(), Error>)
    ensures
        locale@ == canonical@ ==> (r matches Err(Error::ExportCanonical { locale: l }) && l@ == locale@),
        locale@ != canonical@ ==> r is Ok,
{
    if str_eq(locale, canonical) {
        Err(Error::ExportCanonical { locale: owned(locale) })
    } else {
        Ok(())
    }
}

/// The units an export writes: all of them, or with `missing` only those the
/// target locale has not translated yet.
pub open spec fn selected(units: Seq<UnitV>, missing: bool) -> Seq<UnitV> {
    if missing {
        units.filter(|u: UnitV| u.2.len() == 0)
    } else {
        units
    }
}

/// The units an export writes (see `selected`).
pub fn select_units(units: &Vec<Unit>, missing: bool) -> (r: Vec<Unit>)
    ensures
        units_view(r@) == selected(units_view(units@), missing),
{
    let ghost uv = units_view(units@);
    let ghost f = |u: UnitV| u.2.len() == 0;
    let mut out: Vec<Unit> = Vec::new();
    let mut i: usize = 0;
    proof {
        reveal(Seq::filter);
        assert(uv.take(0).filter(f) =~= Seq::<UnitV>::empty());
        assert(units_view(out@) =~= Seq::<UnitV>::empty());
        assert(uv.take(0) =~= Seq::<UnitV>::empty());
    }
    while i < units.len()
        invariant
            i <= units@.len(),
            uv == units_view(units@),
            f == (|u: UnitV| u.2.len() == 0),
            units_view(out@) == if missing { uv.take(i as int).filter(f) } else { uv.take(i as int) },
        decreases units@.len() - i,
    {
        let u = &units[i];
        proof {
            reveal(Seq::filter);
            reveal_strlit("");
            assert(uv.take(i + 1).drop_last() =~= uv.take(i as int));
            assert(uv.take(i + 1).last() == unit_view_of(*u));
            assert(uv[i as int] == unit_view_of(*u));
        }
        let empty = str_eq(u.target.as_str(), "");
        if !missing || empty {
            let c = Unit { id: copy_string(&u.id), source: copy_string(&u.source), target: copy_string(&u.target) };
            let ghost before = out@;
            out.push(c);
            proof {
                assert(units_view(out@) =~= units_view(before).push(unit_view_of(*u)));
                if empty {
                    assert(u.target@ =~= ""@);
                }
            }
        } else {
            proof {
                if u.target@.len() == 0 {
                    assert(u.target@ =~= ""@);
                }
            }
        }
        i = i + 1;
    }
    proof {
        assert(uv.take(units@.len() as int) =~= uv);
    }
    out
}

pub open spec fn unit_view_of(u: Unit) -> UnitV {
    (u.id@, u.source@, u.target@)
}

/// Which format an import reads: the one asked for (see `parse_format`), else
/// the one its file extension names (`csv`, or `xliff` / `xlf`).
pub fn import_format(format: Option<&str>, ext: Option<&str>, file: &str) -> (r: Result<&'static str, Error>)
    ensures
        match format {
            Some(f) => match crate::exchange::format_spec(crate::exchange::lowercase(f@)) {
                Some(x) => r matches Ok(y) && y@ == x,
                None => r matches Err(Error::UnknownFormat { format }) && format@ == crate::exchange::lowercase(f@),
            },
            None => match ext {
                Some(e) => if e@ == "csv"@ {
                    r matches Ok(y) && y@ == "csv"@
                } else if e@ == "xliff"@ || e@ == "xlf"@ {
                    r matches Ok(y) && y@ == "xliff"@
                } else {
                    r matches Err(Error::UnknownExtension { file: f2 }) && f2@ == file@
                },
                None => r matches Err(Error::UnknownExtension { file: f2 }) && f2@ == file@,
            },
        },
{
    match format {
        Some(f) => crate::exchange::parse_format(f),
        None => match ext {
            Some(e) => {
                if str_eq(e, "csv") {
                    Ok("csv")
                } else if str_eq(e, "xliff") || str_eq(e, "xlf") {
                    Ok("xliff")
                } else {
                    Err(Error::UnknownExtension { file: owned(file) })
                }
            },
            None => Err(Error::UnknownExtension { file: owned(file) }),
        },
    }
}

/// The locale an import writes: the one asked for, else the file's; an
/// empty one or the canonical locale is refused.
pub fn import_target(asked: Option<String>, from_file: String, canonical: &str) -> (r: Result<String, Error>)
    ensures
        ({
            let t = match asked {
                Some(a) => a@,
                None => from_file@,
            };
            if t.len() == 0 {
                r matches Err(Error::NoTargetLocale)
            } else if t == canonical@ {
                r matches Err(Error::ImportCanonical { locale }) && locale@ == t
            } else {
                r matches Ok(x) && x@ == t
            }
        }),
{
    let target = match asked {
        Some(a) => a,
        None => from_file,
    };
    proof {
        reveal_strlit("");
    }
    if str_eq(target.as_str(), "") {
        return Err(Error::NoTargetLocale);
    }
    proof {
        if target@.len() == 0 {
            assert(target@ =~= ""@);
        }
    }
    if str_eq(target.as_str(), canonical) {
        return Err(Error::ImportCanonical { locale: target });
    }
    Ok(target)
}

/// The file extension of an export in format `fmt`.
pub fn export_extension(fmt: &str) -> (r: &'static str)
    ensures
        fmt@ == "csv"@ ==> r@ == "csv"@,
        fmt@ != "csv"@ ==> r@ == "xliff"@,
{
    if str_eq(fmt, "csv") { "csv" } else { "xliff" }
}

pub open spec fn sev_rank(s: Severity) -> int {
    if s == Severity::Error { 0 } else { 1 }
}

/// `a` sorts strictly before `b`: errors first, then by key.
pub open spec fn diag_before(a: DiagV, b: DiagV) -> bool {
    sev_rank(a.severity) < sev_rank(b.severity) || (sev_rank(a.severity) == sev_rank(b.severity) && seq_lt(a.key, b.key))
}

/// Where `d` goes in a sorted list: before the first entry it sorts before.
pub open spec fn ins_pos(s: Seq<DiagV>, d: DiagV) -> int
    decreases s.len(),
{
    if s.len() == 0 {
        0
    } else if diag_before(d, s[0]) {
        0
    } else {
        1 + ins_pos(s.drop_first(), d)
    }
}

/// A stable sort, errors first and then by key: each diagnostic goes after
/// every one it does not sort before.
pub open spec fn sorted_diags(s: Seq<DiagV>) -> Seq<DiagV>
    decreases s.len(),
{
    if s.len() == 0 {
        Seq::empty()
    } else {
        let p = sorted_diags(s.drop_last());
        p.insert(ins_pos(p, s.last()), s.last())
    }
}

/// The diagnostics of one locale, as reported: errors first, then by key,
/// otherwise in the order found.
pub open spec fn locale_report(all: Seq<DiagV>, loc: Seq<char>) -> Seq<DiagV> {
    sorted_diags(all.filter(|d: DiagV| d.locale == loc))
}

proof fn lemma_ins_pos(s: Seq<DiagV>, d: DiagV)
    ensures
        0 <= ins_pos(s, d) <= s.len(),
        forall|j: int| 0 <= j < ins_pos(s, d) ==> !diag_before(d, #[trigger] s[j]),
        ins_pos(s, d) < s.len() ==> diag_before(d, s[ins_pos(s, d)]),
    decreases s.len(),
{
    if s.len() > 0 && !diag_before(d, s[0]) {
        lemma_ins_pos(s.drop_first(), d);
        assert forall|j: int| 0 <= j < ins_pos(s, d) implies !diag_before(d, #[trigger] s[j]) by {
            if j > 0 {
                assert(s[j] == s.drop_first()[j - 1]);
            }
        }
    }
}

fn before_exec(a: &Diagnostic, b: &Diagnostic) -> (r: bool)
    ensures
        r == diag_before(a@, b@),
{
    let ra: u8 = if a.severity == Severity::Error { 0 } else { 1 };
    let rb: u8 = if b.severity == Severity::Error { 0 } else { 1 };
    ra < rb || (ra == rb && str_lt(a.key.as_str(), b.key.as_str()))
}

fn copy_diag(d: &Diagnostic) -> (r: Diagnostic)
    ensures
        r@ == d@,
{
    Diagnostic { severity: d.severity, locale: copy_string(&d.locale), key: copy_string(&d.key), message: copy_string(&d.message) }
}

/// The diagnostics of one locale, as reported (see `locale_report`).
pub fn locale_diagnostics(report: &Report, loc: &str) -> (r: Vec<Diagnostic>)
    ensures
        diags_view(r@) == locale_report(diags_view(report.diagnostics@), loc@),
{
    let ghost dv = diags_view(report.diagnostics@);
    let ghost f = |d: DiagV| d.locale == loc@;
    let mut out: Vec<Diagnostic> = Vec::new();
    let mut i: usize = 0;
    proof {
        reveal(Seq::filter);
        assert(dv.take(0).filter(f) =~= Seq::<DiagV>::empty());
        assert(diags_view(out@) =~= Seq::<DiagV>::empty());
    }
    while i < report.diagnostics.len()
        invariant
            i <= report.diagnostics@.len(),
            dv == diags_view(report.diagnostics@),
            f == (|d: DiagV| d.locale == loc@),
            diags_view(out@) == sorted_diags(dv.take(i as int).filter(f)),
        decreases report.diagnostics@.len() - i,
    {
        let d = &report.diagnostics[i];
        proof {
            reveal(Seq::filter);
            assert(dv.take(i + 1).drop_last() =~= dv.take(i as int));
            assert(dv.take(i + 1).last() == d@);
        }
        if str_eq(d.locale.as_str(), loc) {
            let ghost ov = diags_view(out@);
            proof {
                lemma_ins_pos(ov, d@);
                assert(dv.take(i + 1).filter(f) == dv.take(i as int).filter(f).push(d@));
                assert(dv.take(i + 1).filter(f).drop_last() =~= dv.take(i as int).filter(f));
            }
            let mut p: usize = 0;
            while p < out.len() && !before_exec(d, &out[p])
                invariant
                    p <= out@.len(),
                    ov == diags_view(out@),
                    forall|j: int| 0 <= j < p ==> !diag_before(d@, #[trigger] ov[j]),
                decreases out@.len() - p,
            {
                p = p + 1;
            }
            proof {
                assert(p == ins_pos(ov, d@)) by {
                    if p < ins_pos(ov, d@) {
                        assert(!diag_before(d@, ov[p as int]));
                    } else if p > ins_pos(ov, d@) {
                        assert(!diag_before(d@, ov[ins_pos(ov, d@)]));
                    }
                }
            }
            out.insert(p, copy_diag(d));
            proof {
                assert(diags_view(out@) =~= ov.insert(p as int, d@));
            }
        }
        i = i + 1;
    }
    proof {
        assert(dv.take(report.diagnostics@.len() as int) =~= dv);
    }
    out
}

/// The number of errors and of warnings among `ds`.
pub fn severity_counts(ds: &Vec<Diagnostic>) -> (r: (usize, usize))
    ensures
        r.0 == count_sev(diags_view(ds@), Severity::Error),
        r.1 == count_sev(diags_view(ds@), Severity::Warning),
{
    let rep = Report { key_count: 0, diagnostics: copy_diags(ds) };
    (rep.errors(), rep.warnings())
}

fn copy_diags(ds: &Vec<Diagnostic>) -> (r: Vec<Diagnostic>)
    ensures
        diags_view(r@) == diags_view(ds@),
{
    let mut out: Vec<Diagnostic> = Vec::new();
    let mut i: usize = 0;
    while i < ds.len()
        invariant
            i <= ds@.len(),
            diags_view(out@) == diags_view(ds@).take(i as int),
        decreases ds@.len() - i,
    {
        let ghost before = out@;
        out.push(copy_diag(&ds[i]));
        proof {
            assert(diags_view(out@) =~= diags_view(before).push(ds@[i as int]@));
            assert(diags_view(ds@).take(i + 1) =~= diags_view(ds@).take(i as int).push(ds@[i as int]@));
        }
        i = i + 1;
    }
    proof {
        assert(diags_view(ds@).take(ds@.len() as int) =~= diags_view(ds@));
    }
    out
}

/// A check fails on any error, and with `strict` on any warning too.
pub fn check_failed(report: &Report, strict: bool) -> (r: bool)
    ensures
        r == (count_sev(diags_view(report.diagnostics@), Severity::Error) > 0 || (strict && count_sev(
            diags_view(report.diagnostics@),
            Severity::Warning,
        ) > 0)),
{
    report.errors() > 0 || (strict && report.warnings() > 0)
}

} // verus!
