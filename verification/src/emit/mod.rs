//! Code emission: the output identifier case, the brand the generated API is
//! built around, identifier validation shared by every target, and the choice
//! of emitter for a target language.

use vstd::prelude::*;
use crate::error::Error;
use crate::ir::{Ir, MsgV, messages_view, params_view};
use crate::placeholder::{placeholder_at_exec, rewrite_from};
use crate::assoc::{assoc_index, assoc_insert, kv_view, lemma_map_vals_get, lemma_map_vals_insert, map_vals};
use crate::json::{fields_get, fields_insert, lemma_fields_index};
use crate::text::{chars_of, concat, copy_string, owned, push_char, push_str, str_eq, subchars, views};

pub mod swift;
pub mod ts;
pub mod pkg;
pub mod store;

verus! {

/// Names what `heck::ToLowerCamelCase::to_lower_camel_case` returns.
pub uninterp spec fn lower_camel(s: Seq<char>) -> Seq<char>;

/// Names what `heck::ToSnakeCase::to_snake_case` returns.
pub uninterp spec fn snake(s: Seq<char>) -> Seq<char>;

/// Names what `heck::ToUpperCamelCase::to_upper_camel_case` returns.
pub uninterp spec fn upper_camel(s: Seq<char>) -> Seq<char>;

/// Calls `heck::ToLowerCamelCase::to_lower_camel_case`; the contract names its result.
#[verifier::external_body]
fn heck_lower_camel(s: &str) -> (r: String)
    ensures
        r@ == lower_camel(s@),
{
    heck::ToLowerCamelCase::to_lower_camel_case(s)
}

/// Calls `heck::ToSnakeCase::to_snake_case`; the contract names its result.
#[verifier::external_body]
fn heck_snake(s: &str) -> (r: String)
    ensures
        r@ == snake(s@),
{
    heck::ToSnakeCase::to_snake_case(s)
}

/// Calls `heck::ToUpperCamelCase::to_upper_camel_case`; the contract names its result.
#[verifier::external_body]
fn heck_upper_camel(s: &str) -> (r: String)
    ensures
        r@ == upper_camel(s@),
{
    heck::ToUpperCamelCase::to_upper_camel_case(s)
}

/// Output identifier casing for generated accessors. Input keys may be authored
/// in any case; the chosen output case is applied uniformly to namespace names,
/// leaf names and parameter names.
#[derive(PartialEq, Eq, Structural, Clone, Copy, Debug)]
pub enum Case {
    Camel,
    Snake,
    Pascal,
    Preserve,
}

/// `s` in the output case `c`.
pub open spec fn apply_spec(c: Case, s: Seq<char>) -> Seq<char> {
    match c {
        Case::Camel => lower_camel(s),
        Case::Snake => snake(s),
        Case::Pascal => upper_camel(s),
        Case::Preserve => s,
    }
}

/// The case a configuration name selects.
pub open spec fn case_named(s: Seq<char>) -> Option<Case> {
    if s == "camel"@ {
        Some(Case::Camel)
    } else if s == "snake"@ {
        Some(Case::Snake)
    } else if s == "pascal"@ {
        Some(Case::Pascal)
    } else if s == "preserve"@ {
        Some(Case::Preserve)
    } else {
        None
    }
}

impl Case {
    /// The case named `s`: `camel`, `snake`, `pascal` or `preserve`.
    pub fn parse(s: &str) -> (r: Result<Case, Error>)
        ensures
            match case_named(s@) {
                Some(c) => r == Ok::<Case, Error>(c),
                None => r matches Err(Error::UnknownCase { case }) && case@ == s@,
            },
    {
        if str_eq(s, "camel") {
            Ok(Case::Camel)
        } else if str_eq(s, "snake") {
            Ok(Case::Snake)
        } else if str_eq(s, "pascal") {
            Ok(Case::Pascal)
        } else if str_eq(s, "preserve") {
            Ok(Case::Preserve)
        } else {
            Err(Error::UnknownCase { case: owned(s) })
        }
    }

    /// `s` in this case.
    pub fn apply(self, s: &str) -> (r: String)
        ensures
            r@ == apply_spec(self, s@),
    {
        match self {
            Case::Camel => heck_lower_camel(s),
            Case::Snake => heck_snake(s),
            Case::Pascal => heck_upper_camel(s),
            Case::Preserve => owned(s),
        }
    }
}

/// The brand name the generated API is built around: `stele` (the default)
/// yields the type `Stele`, the factory `createStele`, the hook `useStele` and
/// the store getter `getStele`.
pub struct Binding {
    /// PascalCase type name (e.g. `Stele`).
    pub ty: String,
}

impl Binding {
    pub fn new(raw: &str) -> (r: Binding)
        ensures
            r.ty@ == upper_camel(raw@),
    {
        Binding { ty: heck_upper_camel(raw) }
    }

    /// Factory function name, e.g. `createStele`.
    pub fn factory(&self) -> (r: String)
        ensures
            r@ == "create"@ + self.ty@,
    {
        concat("create", self.ty.as_str())
    }

    /// React hook name, e.g. `useStele`.
    pub fn hook(&self) -> (r: String)
        ensures
            r@ == "use"@ + self.ty@,
    {
        concat("use", self.ty.as_str())
    }

    /// Store accessor getter name, e.g. `getStele`.
    pub fn getter(&self) -> (r: String)
        ensures
            r@ == "get"@ + self.ty@,
    {
        concat("get", self.ty.as_str())
    }

    pub fn copy(&self) -> (r: Binding)
        ensures
            r.ty@ == self.ty@,
    {
        Binding { ty: copy_string(&self.ty) }
    }
}

/// Per-target emitter options, from the configuration.
pub struct EmitOptions {
    pub callable: bool,
    /// Import specifier of the core module (used by the `store` target).
    pub core: String,
    /// Import specifier of the store module (used by the `react` target).
    pub store: String,
    /// Output identifier case.
    pub case: Case,
    /// The brand name the generated API is built around.
    pub binding: Binding,
}

/// What every emitter needs of the IR: each message has a non-empty path, and
/// each locale a plural table.
pub open spec fn emittable(ir: &Ir) -> bool {
    &&& forall|i: int| 0 <= i < ir.messages@.len() ==> #[trigger] ir.messages@[i].path@.len() > 0
    &&& forall|i: int| 0 <= i < ir.locales@.len() ==> #[trigger] has_table(ir, ir.locales@[i]@)
}

/// The IR has a plural table for `loc`.
pub open spec fn has_table(ir: &Ir, loc: Seq<char>) -> bool {
    exists|j: int| 0 <= j < ir.plural_rules@.len() && #[trigger] ir.plural_rules@[j].0@ == loc
}

/// A language backend. Adding a language is one impl plus one arm in
/// `emitter_for`; the IR never changes.
pub trait Emitter {
    fn emit(&self, ir: &Ir) -> (r: String)
        requires
            emittable(ir),
    ;

    /// Target-specific validation run before `emit`.
    fn validate(&self, ir: &Ir) -> (r: Result<(), Error>);
}

/// Keys that are valid identifiers but collide with JS object or prototype members.
pub open spec fn reserved_keys() -> Seq<Seq<char>> {
    seq![
        "__proto__"@,
        "prototype"@,
        "constructor"@,
        "toString"@,
        "toLocaleString"@,
        "valueOf"@,
        "hasOwnProperty"@,
        "isPrototypeOf"@,
        "propertyIsEnumerable"@,
        "__defineGetter__"@,
        "__defineSetter__"@,
        "__lookupGetter__"@,
        "__lookupSetter__"@,
    ]
}

fn is_reserved_key(s: &str) -> (r: bool)
    ensures
        r == reserved_keys().contains(s@),
{
    let keys: [&str; 13] = [
        "__proto__",
        "prototype",
        "constructor",
        "toString",
        "toLocaleString",
        "valueOf",
        "hasOwnProperty",
        "isPrototypeOf",
        "propertyIsEnumerable",
        "__defineGetter__",
        "__defineSetter__",
        "__lookupGetter__",
        "__lookupSetter__",
    ];
    proof {
        assert(keys@.map_values(|k: &str| k@) =~= reserved_keys());
    }
    let mut i: usize = 0;
    while i < 13
        invariant
            i <= 13,
            keys@.map_values(|k: &str| k@) == reserved_keys(),
            forall|j: int| 0 <= j < i ==> reserved_keys()[j] != s@,
        decreases 13 - i,
    {
        if str_eq(keys[i], s) {
            proof {
                assert(reserved_keys()[i as int] == s@);
            }
            return true;
        }
        i = i + 1;
    }
    false
}

pub open spec fn ascii_alpha(c: char) -> bool {
    ('a' <= c && c <= 'z') || ('A' <= c && c <= 'Z')
}

pub open spec fn ascii_alnum(c: char) -> bool {
    ascii_alpha(c) || ('0' <= c && c <= '9')
}

/// A valid identifier: an ASCII letter or `_`, then ASCII letters, digits and `_`.
pub open spec fn valid_ident(s: Seq<char>) -> bool {
    &&& s.len() > 0
    &&& (ascii_alpha(s[0]) || s[0] == '_')
    &&& forall|i: int| 0 <= i < s.len() ==> ascii_alnum(#[trigger] s[i]) || s[i] == '_'
}

/// Why a key or parameter does not make an identifier.
pub enum IdentErr {
    Invalid(Seq<char>, Seq<char>),
    Reserved(Seq<char>, Seq<char>),
    Key(Seq<char>, Seq<char>, Seq<char>),
    Param(Seq<char>, Seq<char>, Seq<char>),
}

/// `e` is the error that `x` describes.
pub open spec fn ident_error(e: Error, x: IdentErr) -> bool {
    match x {
        IdentErr::Invalid(k, c) => e matches Error::InvalidIdentifier { key, cased } && key@ == k && cased@ == c,
        IdentErr::Reserved(k, c) => e matches Error::ReservedIdentifier { key, cased } && key@ == k && cased@ == c,
        IdentErr::Key(a, b, c) => e matches Error::KeyCollision { first, second, cased } && first@ == a
            && second@ == b && cased@ == c,
        IdentErr::Param(a, b, c) => e matches Error::ParamCollision { first, second, cased } && first@ == a
            && second@ == b && cased@ == c,
    }
}

/// What `check_ident` finds wrong with `orig` becoming `cased`, if anything.
pub open spec fn ident_check(orig: Seq<char>, cased: Seq<char>) -> Option<IdentErr> {
    if !valid_ident(cased) {
        Some(IdentErr::Invalid(orig, cased))
    } else if reserved_keys().contains(cased) {
        Some(IdentErr::Reserved(orig, cased))
    } else {
        None
    }
}

pub fn check_ident(orig: &str, cased: &str) -> (r: Result<(), Error>)
    ensures
        match ident_check(orig@, cased@) {
            Some(x) => r matches Err(e) && ident_error(e, x),
            None => r is Ok,
        },
{
    let v = chars_of(cased);
    let mut valid = v.len() > 0 && ((v[0] >= 'a' && v[0] <= 'z') || (v[0] >= 'A' && v[0] <= 'Z') || v[0] == '_');
    let mut i: usize = 0;
    while i < v.len()
        invariant
            i <= v@.len(),
            v@ == cased@,
            valid == (v@.len() > 0 && (ascii_alpha(v@[0]) || v@[0] == '_') && forall|j: int|
                0 <= j < i ==> ascii_alnum(#[trigger] v@[j]) || v@[j] == '_'),
        decreases v@.len() - i,
    {
        let c = v[i];
        let ok = (c >= 'a' && c <= 'z') || (c >= 'A' && c <= 'Z') || (c >= '0' && c <= '9') || c == '_';
        if !ok {
            valid = false;
        }
        i = i + 1;
    }
    if !valid {
        return Err(Error::InvalidIdentifier { key: owned(orig), cased: owned(cased) });
    }
    if is_reserved_key(cased) {
        return Err(Error::ReservedIdentifier { key: owned(orig), cased: owned(cased) });
    }
    Ok(())
}

/// A key segment seen so far: its parent path, the segment, and its cased form.
pub type SegSeen = (Seq<Seq<char>>, Seq<char>, Seq<char>);

/// The first segment seen under `parent` that became `cased`.
pub open spec fn first_same(hist: Seq<SegSeen>, parent: Seq<Seq<char>>, cased: Seq<char>) -> Option<Seq<char>>
    decreases hist.len(),
{
    if hist.len() == 0 {
        None
    } else {
        match first_same(hist.drop_last(), parent, cased) {
            Some(o) => Some(o),
            None => if hist.last().0 == parent && hist.last().2 == cased {
                Some(hist.last().1)
            } else {
                None
            },
        }
    }
}

/// The first `n` segments of `path` checked, after the history `hist`.
pub open spec fn segs_fold(hist: Seq<SegSeen>, path: Seq<Seq<char>>, n: int, c: Case) -> Result<Seq<SegSeen>, IdentErr>
    decreases n,
{
    if n <= 0 {
        Ok(hist)
    } else {
        match segs_fold(hist, path, n - 1, c) {
            Err(e) => Err(e),
            Ok(h) => {
                let seg = path[n - 1];
                let cased = apply_spec(c, seg);
                match ident_check(seg, cased) {
                    Some(e) => Err(e),
                    None => match first_same(h, path.take(n - 1), cased) {
                        Some(orig) => if orig != seg {
                            Err(IdentErr::Key(orig, seg, cased))
                        } else {
                            Ok(h.push((path.take(n - 1), seg, cased)))
                        },
                        None => Ok(h.push((path.take(n - 1), seg, cased))),
                    },
                }
            },
        }
    }
}

/// The first parameter seen that became `cased`.
pub open spec fn first_param(hist: Seq<(Seq<char>, Seq<char>)>, cased: Seq<char>) -> Option<Seq<char>>
    decreases hist.len(),
{
    if hist.len() == 0 {
        None
    } else {
        match first_param(hist.drop_last(), cased) {
            Some(o) => Some(o),
            None => if hist.last().1 == cased {
                Some(hist.last().0)
            } else {
                None
            },
        }
    }
}

/// The first `n` parameters of a message checked.
pub open spec fn params_fold(names: Seq<Seq<char>>, n: int, c: Case) -> Result<Seq<(Seq<char>, Seq<char>)>, IdentErr>
    decreases n,
{
    if n <= 0 {
        Ok(Seq::empty())
    } else {
        match params_fold(names, n - 1, c) {
            Err(e) => Err(e),
            Ok(h) => {
                let name = names[n - 1];
                let cased = apply_spec(c, name);
                match ident_check(name, cased) {
                    Some(e) => Err(e),
                    None => match first_param(h, cased) {
                        Some(orig) => if orig != name {
                            Err(IdentErr::Param(orig, name, cased))
                        } else {
                            Ok(h.push((name, cased)))
                        },
                        None => Ok(h.push((name, cased))),
                    },
                }
            },
        }
    }
}

pub open spec fn param_names(m: MsgV) -> Seq<Seq<char>> {
    m.params.map_values(|p: (Seq<char>, crate::ir::ParamType)| p.0)
}

/// The first `n` messages checked: each message's key segments against their
/// siblings so far, then its parameters against each other.
pub open spec fn msgs_fold(msgs: Seq<MsgV>, n: int, c: Case) -> Result<Seq<SegSeen>, IdentErr>
    decreases n,
{
    if n <= 0 {
        Ok(Seq::empty())
    } else {
        match msgs_fold(msgs, n - 1, c) {
            Err(e) => Err(e),
            Ok(h) => {
                let m = msgs[n - 1];
                match segs_fold(h, m.path, m.path.len() as int, c) {
                    Err(e) => Err(e),
                    Ok(h2) => match params_fold(param_names(m), m.params.len() as int, c) {
                        Err(e) => Err(e),
                        Ok(_) => Ok(h2),
                    },
                }
            },
        }
    }
}

pub(crate) fn find_same(hist: &Vec<(Vec<String>, String, String)>, parent: &Vec<String>, upto: usize, cased: &String) -> (r: Option<String>)
    requires
        upto <= parent@.len(),
    ensures
        match first_same(seen_view(hist@), views(parent@).take(upto as int), cased@) {
            Some(o) => r matches Some(x) && x@ == o,
            None => r is None,
        },
{
    let ghost hv = seen_view(hist@);
    let ghost pp = views(parent@).take(upto as int);
    let mut i: usize = 0;
    proof {
        assert(hv.take(0) =~= Seq::<SegSeen>::empty());
    }
    while i < hist.len()
        invariant
            i <= hist@.len(),
            hv == seen_view(hist@),
            upto <= parent@.len(),
            pp == views(parent@).take(upto as int),
            first_same(hv.take(i as int), pp, cased@) is None,
        decreases hist@.len() - i,
    {
        let e = &hist[i];
        proof {
            assert(hv.take(i + 1).drop_last() =~= hv.take(i as int));
            assert(hv.take(i + 1).last() == hv[i as int]);
        }
        if str_eq(e.2.as_str(), cased.as_str()) && same_prefix(&e.0, parent, upto) {
            proof {
                lemma_first_same_prefix(hv, i as int, pp, cased@);
            }
            return Some(copy_string(&e.1));
        }
        i = i + 1;
    }
    proof {
        assert(hv.take(hist@.len() as int) =~= hv);
    }
    None
}

proof fn lemma_first_same_prefix(hv: Seq<SegSeen>, i: int, pp: Seq<Seq<char>>, cased: Seq<char>)
    requires
        0 <= i < hv.len(),
        first_same(hv.take(i), pp, cased) is None,
        hv[i].0 == pp && hv[i].2 == cased,
    ensures
        first_same(hv, pp, cased) == Some(hv[i].1),
    decreases hv.len() - i,
{
    if i + 1 < hv.len() {
        assert(hv.drop_last().take(i) =~= hv.take(i));
        lemma_first_same_prefix(hv.drop_last(), i, pp, cased);
    } else {
        assert(hv.take(i) =~= hv.drop_last());
    }
}

/// Does `a` equal `b[..n]`, by view?
fn same_prefix(a: &Vec<String>, b: &Vec<String>, n: usize) -> (r: bool)
    requires
        n <= b@.len(),
    ensures
        r == (views(a@) == views(b@).take(n as int)),
{
    if a.len() != n {
        proof {
            if views(a@) == views(b@).take(n as int) {
                assert(views(a@).len() == a@.len());
            }
        }
        return false;
    }
    let mut i: usize = 0;
    while i < n
        invariant
            i <= n,
            n <= b@.len(),
            a@.len() == n,
            forall|j: int| 0 <= j < i ==> a@[j]@ == b@[j]@,
        decreases n - i,
    {
        if !str_eq(a[i].as_str(), b[i].as_str()) {
            proof {
                if views(a@) == views(b@).take(n as int) {
                    assert(views(a@)[i as int] == views(b@).take(n as int)[i as int]);
                }
            }
            return false;
        }
        i = i + 1;
    }
    proof {
        assert(views(a@) =~= views(b@).take(n as int));
    }
    true
}

pub open spec fn seen_view(s: Seq<(Vec<String>, String, String)>) -> Seq<SegSeen> {
    s.map_values(|e: (Vec<String>, String, String)| (views(e.0@), e.1@, e.2@))
}

pub open spec fn pseen_view(s: Seq<(String, String)>) -> Seq<(Seq<char>, Seq<char>)> {
    s.map_values(|e: (String, String)| (e.0@, e.1@))
}

pub(crate) fn prefix_of(v: &Vec<String>, n: usize) -> (r: Vec<String>)
    requires
        n <= v@.len(),
    ensures
        views(r@) == views(v@).take(n as int),
{
    let mut r: Vec<String> = Vec::new();
    let mut i: usize = 0;
    while i < n
        invariant
            i <= n,
            n <= v@.len(),
            r@.len() == i,
            forall|j: int| 0 <= j < i ==> r@[j]@ == v@[j]@,
        decreases n - i,
    {
        r.push(copy_string(&v[i]));
        i = i + 1;
    }
    proof {
        assert(views(r@) =~= views(v@).take(n as int));
    }
    r
}

/// Checks the key segments of one message against the siblings seen so far
/// (see `segs_fold`), recording them.
fn check_segments(hist: &mut Vec<(Vec<String>, String, String)>, path: &Vec<String>, case: Case) -> (r: Result<(), Error>)
    ensures
        match segs_fold(seen_view(old(hist)@), views(path@), path@.len() as int, case) {
            Ok(h) => r is Ok && seen_view(final(hist)@) == h,
            Err(x) => r matches Err(e) && ident_error(e, x),
        },
{
    let ghost h0 = seen_view(hist@);
    let ghost pv = views(path@);
    let mut i: usize = 0;
    while i < path.len()
        invariant
            i <= path@.len(),
            pv == views(path@),
            h0 == seen_view(old(hist)@),
            segs_fold(h0, pv, i as int, case) == Ok::<Seq<SegSeen>, IdentErr>(seen_view(hist@)),
        decreases path@.len() - i,
    {
        let seg = &path[i];
        let cased = case.apply(seg.as_str());
        proof {
            assert(pv[i as int] == seg@);
        }
        match check_ident(seg.as_str(), cased.as_str()) {
            Ok(()) => {},
            Err(e) => {
                proof {
                    lemma_segs_err(h0, pv, case, i as int + 1, pv.len() as int);
                }
                return Err(e);
            },
        }
        match find_same(hist, path, i, &cased) {
            Some(orig) => {
                if !str_eq(orig.as_str(), seg.as_str()) {
                    proof {
                        lemma_segs_err(h0, pv, case, i as int + 1, pv.len() as int);
                    }
                    return Err(Error::KeyCollision { first: orig, second: copy_string(seg), cased });
                }
            },
            None => {},
        }
        let ghost before = hist@;
        let parent = prefix_of(path, i);
        let ghost cv = cased@;
        hist.push((parent, copy_string(seg), cased));
        proof {
            assert(seen_view(hist@) =~= seen_view(before).push((pv.take(i as int), pv[i as int], cv)));
        }
        i = i + 1;
    }
    Ok(())
}

/// The first parameter recorded under `cased`, by position.
fn find_param(phist: &Vec<(String, String)>, cased: &String) -> (r: Option<usize>)
    ensures
        match first_param(pseen_view(phist@), cased@) {
            Some(o) => r matches Some(x) && x < phist@.len() && phist@[x as int].0@ == o,
            None => r is None,
        },
{
    let ghost ph = pseen_view(phist@);
    let mut x: usize = 0;
    proof {
        assert(ph.take(0) =~= Seq::<(Seq<char>, Seq<char>)>::empty());
    }
    while x < phist.len()
        invariant
            x <= phist@.len(),
            ph == pseen_view(phist@),
            first_param(ph.take(x as int), cased@) is None,
        decreases phist@.len() - x,
    {
        proof {
            assert(ph.take(x + 1).drop_last() =~= ph.take(x as int));
        }
        if str_eq(phist[x].1.as_str(), cased.as_str()) {
            proof {
                lemma_first_param_at(ph, x as int, cased@);
            }
            return Some(x);
        }
        x = x + 1;
    }
    proof {
        assert(ph.take(phist@.len() as int) =~= ph);
    }
    None
}

/// Checks the parameters of one message against each other (see `params_fold`).
fn check_params(params: &Vec<crate::ir::Param>, case: Case) -> (r: Result<(), Error>)
    ensures
        match params_fold(params_view(params@).map_values(|p: (Seq<char>, crate::ir::ParamType)| p.0), params@.len() as int, case) {
            Ok(_) => r is Ok,
            Err(x) => r matches Err(e) && ident_error(e, x),
        },
{
    let ghost names = params_view(params@).map_values(|p: (Seq<char>, crate::ir::ParamType)| p.0);
    let mut phist: Vec<(String, String)> = Vec::new();
    proof {
        assert(pseen_view(phist@) =~= Seq::<(Seq<char>, Seq<char>)>::empty());
    }
    let mut j: usize = 0;
    while j < params.len()
        invariant
            j <= params@.len(),
            names == params_view(params@).map_values(|p: (Seq<char>, crate::ir::ParamType)| p.0),
            names.len() == params@.len(),
            params_fold(names, j as int, case) == Ok::<Seq<(Seq<char>, Seq<char>)>, IdentErr>(pseen_view(phist@)),
        decreases params@.len() - j,
    {
        let name = &params[j].name;
        proof {
            assert(names[j as int] == name@);
        }
        let cased = case.apply(name.as_str());
        match check_ident(name.as_str(), cased.as_str()) {
            Ok(()) => {},
            Err(e) => {
                proof {
                    lemma_params_err(names, case, j as int + 1, names.len() as int);
                }
                return Err(e);
            },
        }
        match find_param(&phist, &cased) {
            Some(x) => {
                if !str_eq(phist[x].0.as_str(), name.as_str()) {
                    proof {
                        lemma_params_err(names, case, j as int + 1, names.len() as int);
                    }
                    return Err(Error::ParamCollision { first: copy_string(&phist[x].0), second: copy_string(name), cased });
                }
            },
            None => {},
        }
        let ghost before = phist@;
        let ghost cv = cased@;
        phist.push((copy_string(name), cased));
        proof {
            assert(pseen_view(phist@) =~= pseen_view(before).push((names[j as int], cv)));
        }
        j = j + 1;
    }
    Ok(())
}

/// Validates that, under the chosen output case, every key and parameter
/// becomes a valid, non-colliding identifier (see `msgs_fold`): generation
/// fails loudly instead of emitting code that will not compile or that clobbers
/// a duplicate key.
pub fn validate_idents(ir: &Ir, case: Case) -> (r: Result<(), Error>)
    ensures
        match msgs_fold(messages_view(ir.messages@), ir.messages@.len() as int, case) {
            Ok(_) => r is Ok,
            Err(x) => r matches Err(e) && ident_error(e, x),
        },
{
    let ghost mv = messages_view(ir.messages@);
    let mut hist: Vec<(Vec<String>, String, String)> = Vec::new();
    proof {
        assert(seen_view(hist@) =~= Seq::<SegSeen>::empty());
    }
    let mut k: usize = 0;
    while k < ir.messages.len()
        invariant
            k <= ir.messages@.len(),
            mv == messages_view(ir.messages@),
            msgs_fold(mv, k as int, case) == Ok::<Seq<SegSeen>, IdentErr>(seen_view(hist@)),
        decreases ir.messages@.len() - k,
    {
        let m = &ir.messages[k];
        proof {
            assert(mv[k as int] == m@);
        }
        match check_segments(&mut hist, &m.path, case) {
            Ok(()) => {},
            Err(e) => {
                proof {
                    lemma_msgs_err(mv, case, k as int + 1, mv.len() as int);
                }
                return Err(e);
            },
        }
        match check_params(&m.params, case) {
            Ok(()) => {},
            Err(e) => {
                proof {
                    lemma_msgs_err(mv, case, k as int + 1, mv.len() as int);
                }
                return Err(e);
            },
        }
        k = k + 1;
    }
    Ok(())
}

proof fn lemma_first_param_at(ph: Seq<(Seq<char>, Seq<char>)>, x: int, cased: Seq<char>)
    requires
        0 <= x < ph.len(),
        first_param(ph.take(x), cased) is None,
        ph[x].1 == cased,
    ensures
        first_param(ph, cased) == Some(ph[x].0),
    decreases ph.len() - x,
{
    if x + 1 < ph.len() {
        assert(ph.drop_last().take(x) =~= ph.take(x));
        lemma_first_param_at(ph.drop_last(), x, cased);
    } else {
        assert(ph.take(x) =~= ph.drop_last());
    }
}

proof fn lemma_segs_err(h: Seq<SegSeen>, path: Seq<Seq<char>>, c: Case, k: int, n: int)
    requires
        0 <= k <= n,
        segs_fold(h, path, k, c) is Err,
    ensures
        segs_fold(h, path, n, c) == segs_fold(h, path, k, c),
    decreases n - k,
{
    if k < n {
        lemma_segs_err(h, path, c, k + 1, n);
    }
}

proof fn lemma_params_err(names: Seq<Seq<char>>, c: Case, k: int, n: int)
    requires
        0 <= k <= n,
        params_fold(names, k, c) is Err,
    ensures
        params_fold(names, n, c) == params_fold(names, k, c),
    decreases n - k,
{
    if k < n {
        lemma_params_err(names, c, k + 1, n);
    }
}

proof fn lemma_msgs_err(msgs: Seq<MsgV>, c: Case, k: int, n: int)
    requires
        0 <= k <= n,
        msgs_fold(msgs, k, c) is Err,
    ensures
        msgs_fold(msgs, n, c) == msgs_fold(msgs, k, c),
    decreases n - k,
{
    if k < n {
        lemma_msgs_err(msgs, c, k + 1, n);
    }
}

/// Single-character code of a plural category in the packed tables.
pub open spec fn cat_char_spec(name: Seq<char>) -> char {
    if name == "zero"@ {
        'z'
    } else if name == "one"@ {
        '1'
    } else if name == "two"@ {
        '2'
    } else if name == "few"@ {
        'f'
    } else if name == "many"@ {
        'm'
    } else {
        'o'
    }
}

/// Single-character encoding of a plural category, used to pack the baked
/// per-locale tables compactly into generated code.
pub fn cat_char(name: &str) -> (r: char)
    ensures
        r == cat_char_spec(name@),
{
    if str_eq(name, "zero") {
        'z'
    } else if str_eq(name, "one") {
        '1'
    } else if str_eq(name, "two") {
        '2'
    } else if str_eq(name, "few") {
        'f'
    } else if str_eq(name, "many") {
        'm'
    } else {
        'o'
    }
}

/// `s` with every `{{name}}` placeholder re-cased (see `rewrite_from`), so the
/// baked strings stay in step with the re-cased parameter names.
pub open spec fn recase_spec(s: Seq<char>, c: Case) -> Seq<char> {
    if c == Case::Preserve {
        s
    } else {
        rewrite_from(s, 0, false, |n: Seq<char>| apply_spec(c, n))
    }
}

/// Rewrites `{{param}}` placeholders of a baked string to the chosen output case.
pub fn recase_placeholders(s: &str, case: Case) -> (r: String)
    ensures
        r@ == recase_spec(s@, case),
{
    if case == Case::Preserve {
        return owned(s);
    }
    let v = chars_of(s);
    let mut out = String::new();
    let mut i: usize = 0;
    let ghost f = |n: Seq<char>| apply_spec(case, n);
    while i < v.len()
        invariant
            v@ == s@,
            i <= v@.len(),
            f == (|n: Seq<char>| apply_spec(case, n)),
            rewrite_from(v@, 0, false, f) == out@ + rewrite_from(v@, i as int, false, f),
        decreases v@.len() - i,
    {
        let ghost old_out = out@;
        match placeholder_at_exec(&v, i, false) {
            Some((a, b, e)) => {
                let name = crate::text::string_of(&subchars(&v, a, b));
                let cased = case.apply(name.as_str());
                push_char(&mut out, '{');
                push_char(&mut out, '{');
                push_str(&mut out, cased.as_str());
                push_char(&mut out, '}');
                push_char(&mut out, '}');
                proof {
                    assert(out@ =~= old_out + seq!['{', '{'] + f(v@.subrange(a as int, b as int)) + seq!['}', '}']);
                }
                i = e;
            },
            None => {
                push_char(&mut out, v[i]);
                i = i + 1;
            },
        }
    }
    out
}

/// The accessor tree of the messages: a namespace holds named children in
/// ascending key order; a leaf is a message, by position.
pub enum Node {
    Leaf(usize),
    Branch(Vec<(String, Node)>),
}

/// Model of an accessor tree node.
pub enum NodeV {
    Leaf(int),
    Branch(Seq<(Seq<char>, NodeV)>),
}

pub open spec fn node_view(n: Node) -> NodeV
    decreases n,
{
    match n {
        Node::Leaf(i) => NodeV::Leaf(i as int),
        Node::Branch(v) => NodeV::Branch(nodes_view(v@)),
    }
}

pub open spec fn nodes_view(s: Seq<(String, Node)>) -> Seq<(Seq<char>, NodeV)>
    decreases s,
{
    if s.len() == 0 {
        Seq::empty()
    } else {
        seq![(s[0].0@, node_view(s[0].1))] + nodes_view(s.subrange(1, s.len() as int))
    }
}

pub proof fn lemma_nodes_view(s: Seq<(String, Node)>)
    ensures
        nodes_view(s).len() == s.len(),
        forall|i: int| 0 <= i < s.len() ==> #[trigger] nodes_view(s)[i] == (s[i].0@, node_view(s[i].1)),
    decreases s.len(),
{
    if s.len() > 0 {
        lemma_nodes_view(s.subrange(1, s.len() as int));
    }
}

proof fn lemma_nodes_map(s: Seq<(String, Node)>)
    ensures
        nodes_view(s) == map_vals(kv_view(s), |n: Node| node_view(n)),
{
    lemma_nodes_view(s);
    assert(nodes_view(s) =~= map_vals(kv_view(s), |n: Node| node_view(n)));
}

/// `m` placed in `b` at `path`: the last segment names the leaf (replacing any
/// entry); a missing namespace is created; a leaf where a namespace is needed
/// leaves the tree as it was.
pub open spec fn tree_insert(b: Seq<(Seq<char>, NodeV)>, path: Seq<Seq<char>>, m: int) -> Seq<(Seq<char>, NodeV)>
    decreases path.len(),
{
    if path.len() <= 1 {
        fields_insert(b, path[0], NodeV::Leaf(m))
    } else {
        match fields_get(b, path[0]) {
            Some(NodeV::Branch(c)) => fields_insert(b, path[0], NodeV::Branch(tree_insert(c, path.drop_first(), m))),
            Some(NodeV::Leaf(_)) => b,
            None => fields_insert(b, path[0], NodeV::Branch(tree_insert(Seq::empty(), path.drop_first(), m))),
        }
    }
}

/// The tree of the first `n` messages.
pub open spec fn build_tree(msgs: Seq<MsgV>, n: int) -> Seq<(Seq<char>, NodeV)>
    decreases n,
{
    if n <= 0 {
        Seq::empty()
    } else {
        tree_insert(build_tree(msgs, n - 1), msgs[n - 1].path, n - 1)
    }
}

/// Places message `m` at `path[i..]` (see `tree_insert`).
pub fn insert(b: &mut Vec<(String, Node)>, path: &Vec<String>, i: usize, m: usize)
    requires
        i < path@.len(),
    ensures
        nodes_view(final(b)@) == tree_insert(nodes_view(old(b)@), views(path@).subrange(i as int, path@.len() as int), m as int),
    decreases path@.len() - i,
{
    let ghost ps = views(path@).subrange(i as int, path@.len() as int);
    let ghost bv = nodes_view(b@);
    proof {
        assert(ps[0] == path@[i as int]@);
        assert(ps.drop_first() =~= views(path@).subrange(i + 1, path@.len() as int));
        lemma_nodes_map(b@);
        lemma_nodes_view(b@);
    }
    if i == path.len() - 1 {
        let ghost before = b@;
        assoc_insert(b, copy_string(&path[i]), Node::Leaf(m));
        proof {
            lemma_map_vals_insert(kv_view(before), |n: Node| node_view(n), ps[0], Node::Leaf(m));
            lemma_nodes_map(b@);
            assert(ps.len() == 1);
            assert(nodes_view(b@) == tree_insert(bv, ps, m as int));
        }
    } else {
        proof {
            lemma_fields_index(bv, ps[0]);
        }
        match assoc_index(b, path[i].as_str()) {
            Some(k) => {
                proof {
                    lemma_map_vals_get(kv_view(b@), |n: Node| node_view(n), ps[0]);
                    crate::json::lemma_fields_index(kv_view(b@), ps[0]);
                }
                let is_branch = match &b[k].1 {
                    Node::Branch(_) => true,
                    Node::Leaf(_) => false,
                };
                proof {
                    assert(fields_get(kv_view(b@), ps[0]) == Some(b@[k as int].1));
                    assert(fields_get(bv, ps[0]) == Some(node_view(b@[k as int].1)));
                    lemma_fields_index(bv, ps[0]);
                    assert(bv[k as int].0 == ps[0]);
                    if let Some(j) = crate::json::fields_index(bv, ps[0]) {
                        assert(bv[j].0 == kv_view(b@)[j].0);
                        if j != k {
                            if j < k {
                                assert(kv_view(b@)[j].0 != ps[0]);
                            }
                        }
                    }
                    assert(crate::json::fields_index(bv, ps[0]) == Some(k as int));
                }
                if is_branch {
                    let (key, node) = b.remove(k);
                    match node {
                        Node::Branch(mut c) => {
                            insert(&mut c, path, i + 1, m);
                            let ghost cv = nodes_view(c@);
                            b.insert(k, (key, Node::Branch(c)));
                            proof {
                                lemma_nodes_view(b@);
                                assert(nodes_view(b@) =~= bv.update(k as int, (ps[0], NodeV::Branch(cv))));
                                assert(nodes_view(b@) == tree_insert(bv, ps, m as int));
                            }
                        },
                        Node::Leaf(x) => {
                            b.insert(k, (key, Node::Leaf(x)));
                            proof {
                                assert(false);
                            }
                        },
                    }
                }
            },
            None => {
                proof {
                    lemma_map_vals_get(kv_view(b@), |n: Node| node_view(n), ps[0]);
                    crate::json::lemma_fields_index(kv_view(b@), ps[0]);
                    assert(fields_get(bv, ps[0]) is None);
                }
                let mut c: Vec<(String, Node)> = Vec::new();
                proof {
                    assert(nodes_view(c@) =~= Seq::<(Seq<char>, NodeV)>::empty());
                }
                insert(&mut c, path, i + 1, m);
                let ghost before = b@;
                let nb = Node::Branch(c);
                assoc_insert(b, copy_string(&path[i]), nb);
                proof {
                    lemma_map_vals_insert(kv_view(before), |n: Node| node_view(n), ps[0], nb);
                    lemma_nodes_map(b@);
                    assert(nodes_view(b@) == tree_insert(bv, ps, m as int));
                }
            },
        }
    }
}

/// The accessor tree of every message (see `build_tree`).
pub fn build_tree_exec(ir: &Ir) -> (r: Vec<(String, Node)>)
    requires
        forall|i: int| 0 <= i < ir.messages@.len() ==> #[trigger] ir.messages@[i].path@.len() > 0,
    ensures
        nodes_view(r@) == build_tree(messages_view(ir.messages@), ir.messages@.len() as int),
{
    let ghost mv = messages_view(ir.messages@);
    let mut t: Vec<(String, Node)> = Vec::new();
    proof {
        assert(nodes_view(t@) =~= Seq::<(Seq<char>, NodeV)>::empty());
    }
    let mut k: usize = 0;
    while k < ir.messages.len()
        invariant
            k <= ir.messages@.len(),
            mv == messages_view(ir.messages@),
            forall|i: int| 0 <= i < ir.messages@.len() ==> #[trigger] ir.messages@[i].path@.len() > 0,
            nodes_view(t@) == build_tree(mv, k as int),
        decreases ir.messages@.len() - k,
    {
        let m = &ir.messages[k];
        proof {
            assert(mv[k as int] == m@);
            assert(m.path@.len() > 0);
            assert(views(m.path@).subrange(0, m.path@.len() as int) =~= views(m.path@));
        }
        insert(&mut t, &m.path, 0, k);
        k = k + 1;
    }
    t
}

/// The plural table of `loc`.
pub open spec fn table_for(ir: &Ir, loc: Seq<char>) -> crate::ir::PluralTable {
    fields_get(kv_view(ir.plural_rules@), loc).unwrap()
}

/// A category table packed one character per entry (see `cat_char`).
pub open spec fn packed_spec(cats: Seq<String>) -> Seq<char> {
    views(cats).map_values(|c: Seq<char>| cat_char_spec(c))
}

/// Packs a category table into a string of category codes.
pub fn pack_cats(cats: &Vec<String>) -> (r: String)
    ensures
        r@ == packed_spec(cats@),
{
    let ghost cv = views(cats@);
    let mut out = String::new();
    let mut i: usize = 0;
    while i < cats.len()
        invariant
            i <= cats@.len(),
            cv == views(cats@),
            out@ == cv.take(i as int).map_values(|c: Seq<char>| cat_char_spec(c)),
        decreases cats@.len() - i,
    {
        let ch = cat_char(cats[i].as_str());
        push_char(&mut out, ch);
        proof {
            assert(cv.take(i + 1).map_values(|c: Seq<char>| cat_char_spec(c)) =~= cv.take(i as int).map_values(
                |c: Seq<char>| cat_char_spec(c),
            ).push(ch));
        }
        i = i + 1;
    }
    proof {
        assert(cv.take(cats@.len() as int) =~= cv);
    }
    out
}

/// The plural table of the `li`-th locale.
pub fn table_of(ir: &Ir, li: usize) -> (r: &crate::ir::PluralTable)
    requires
        emittable(ir),
        li < ir.locales@.len(),
    ensures
        *r == table_for(ir, ir.locales@[li as int]@),
{
    let loc = &ir.locales[li];
    proof {
        crate::json::lemma_fields_index(kv_view(ir.plural_rules@), loc@);
        assert(has_table(ir, ir.locales@[li as int]@));
        let j = choose|j: int| 0 <= j < ir.plural_rules@.len() && #[trigger] ir.plural_rules@[j].0@ == ir.locales@[li as int]@;
        assert(kv_view(ir.plural_rules@)[j].0 == loc@);
    }
    match assoc_index(&ir.plural_rules, loc.as_str()) {
        Some(k) => {
            proof {
                crate::json::lemma_fields_index(kv_view(ir.plural_rules@), loc@);
            }
            &ir.plural_rules[k].1
        },
        None => {
            proof {
                assert(false);
            }
            &ir.plural_rules[0].1
        },
    }
}

/// One of the emitters, chosen by target language.
pub enum AnyEmitter {
    Ts(ts::TsEmitter),
    Swift(swift::SwiftEmitter),
    Store(store::StoreEmitter),
    React(store::ReactEmitter),
}

/// What `emitter_for` builds for a target language, if it knows the language.
pub open spec fn emitter_spec(lang: Seq<char>, opts: &EmitOptions, e: AnyEmitter) -> bool {
    if lang == "typescript"@ || lang == "ts"@ {
        e matches AnyEmitter::Ts(t) && t.callable == opts.callable && t.case == opts.case && t.binding.ty@ == opts.binding.ty@
    } else if lang == "swift"@ {
        e matches AnyEmitter::Swift(t) && t.case == opts.case && t.binding.ty@ == opts.binding.ty@
    } else if lang == "store"@ {
        e matches AnyEmitter::Store(t) && t.core@ == opts.core@ && t.binding.ty@ == opts.binding.ty@
    } else {
        e matches AnyEmitter::React(t) && t.store@ == opts.store@ && t.binding.ty@ == opts.binding.ty@
    }
}

pub open spec fn known_lang(lang: Seq<char>) -> bool {
    lang == "typescript"@ || lang == "ts"@ || lang == "swift"@ || lang == "store"@ || lang == "react"@
}

/// The emitter for a target language (`typescript` or `ts`, `swift`, `store`,
/// `react`), or `None` for a language without one.
pub fn emitter_for(lang: &str, opts: &EmitOptions) -> (r: Option<AnyEmitter>)
    ensures
        known_lang(lang@) <==> r is Some,
        r matches Some(e) ==> emitter_spec(lang@, opts, e),
{
    if str_eq(lang, "typescript") || str_eq(lang, "ts") {
        Some(AnyEmitter::Ts(ts::TsEmitter { callable: opts.callable, case: opts.case, binding: opts.binding.copy() }))
    } else if str_eq(lang, "swift") {
        Some(AnyEmitter::Swift(swift::SwiftEmitter { case: opts.case, binding: opts.binding.copy() }))
    } else if str_eq(lang, "store") {
        Some(AnyEmitter::Store(store::StoreEmitter { core: copy_string(&opts.core), binding: opts.binding.copy() }))
    } else if str_eq(lang, "react") {
        Some(AnyEmitter::React(store::ReactEmitter { store: copy_string(&opts.store), binding: opts.binding.copy() }))
    } else {
        None
    }
}

impl Emitter for AnyEmitter {
    fn emit(&self, ir: &Ir) -> (r: String)
        ensures
            match self {
                AnyEmitter::Ts(e) => r@ == ts::ts_emit_spec(e.callable, e.case, e.binding.ty@, "create"@ + e.binding.ty@, ir),
                AnyEmitter::Swift(e) => r@ == swift::swift_emit_spec(e.case, e.binding.ty@, ir),
                AnyEmitter::Store(e) => r@ == store::store_ts_spec(e.core@, e.binding.ty@),
                AnyEmitter::React(e) => r@ == store::react_ts_spec(e.store@, e.binding.ty@),
            },
    {
        match self {
            AnyEmitter::Ts(e) => e.emit(ir),
            AnyEmitter::Swift(e) => e.emit(ir),
            AnyEmitter::Store(e) => e.emit(ir),
            AnyEmitter::React(e) => e.emit(ir),
        }
    }

    fn validate(&self, ir: &Ir) -> (r: Result<(), Error>)
        ensures
            match self {
                AnyEmitter::Swift(e) => match swift::swift_msgs(messages_view(ir.messages@), ir.messages@.len() as int, e.binding.ty@) {
                    Ok(_) => r is Ok,
                    Err(x) => r matches Err(er) && swift::swift_error(er, x),
                },
                _ => r is Ok,
            },
    {
        match self {
            AnyEmitter::Ts(e) => e.validate(ir),
            AnyEmitter::Swift(e) => e.validate(ir),
            AnyEmitter::Store(e) => e.validate(ir),
            AnyEmitter::React(e) => e.validate(ir),
        }
    }
}

} // verus!
