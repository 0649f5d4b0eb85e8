//! The project configuration (`stele.toml`) and the option defaults that the
//! commands derive from it.

use vstd::prelude::*;
use crate::emit::{case_named, upper_camel, Binding, Case, EmitOptions};
use crate::emit::pkg::PackageOptions;
use crate::error::Error;
use crate::text::{copy_string, owned};

verus! {

/// The project configuration.
pub struct Config {
    pub canonical: String,
    /// The locales directory, relative to the configuration file.
    pub locales: String,
    pub target: Vec<Target>,
    pub package: Option<Package>,
}

/// One generation target.
pub struct Target {
    pub lang: String,
    /// The output file, relative to the configuration file.
    pub out: String,
    /// No-argument leaves as `() => "..."` thunks rather than bare strings
    /// (TypeScript only).
    pub callable: bool,
    /// For the `store` target: the import specifier of the core module.
    pub core: Option<String>,
    /// For the `react` target: the import specifier of the store module.
    pub store: Option<String>,
    /// Output identifier case: `camel` (default), `snake`, `pascal` or `preserve`.
    pub case: Option<String>,
    /// The brand name the generated API is built around (default `stele`).
    pub binding: Option<String>,
}

/// A package target: compiled `.js` / `.d.ts` files and a `package.json`.
pub struct Package {
    pub name: String,
    pub version: Option<String>,
    /// The output directory, relative to the configuration file.
    pub out: String,
    pub store: bool,
    pub react: bool,
    pub callable: bool,
    pub case: Option<String>,
    pub binding: Option<String>,
}

pub open spec fn or_default(o: Option<String>, d: Seq<char>) -> Seq<char> {
    match o {
        Some(s) => s@,
        None => d,
    }
}

fn value_or(o: &Option<String>, d: &str) -> (r: String)
    ensures
        r@ == or_default(*o, d@),
{
    match o {
        Some(s) => copy_string(s),
        None => owned(d),
    }
}

/// The case a configuration names (default `camel`).
pub fn case_of(o: &Option<String>) -> (r: Result<Case, Error>)
    ensures
        match case_named(or_default(*o, "camel"@)) {
            Some(c) => r == Ok::<Case, Error>(c),
            None => r matches Err(Error::UnknownCase { case }) && case@ == or_default(*o, "camel"@),
        },
{
    let name = value_or(o, "camel");
    Case::parse(name.as_str())
}

/// The emitter options of a target: its case (default `camel`), core and
/// store import specifiers (defaults `./stele.gen`, `./stele.store`) and
/// binding (default `stele`).
pub fn target_options(t: &Target) -> (r: Result<EmitOptions, Error>)
    ensures
        match case_named(or_default(t.case, "camel"@)) {
            Some(c) => r matches Ok(o) && o.case == c && o.callable == t.callable && o.core@ == or_default(t.core, "./stele.gen"@)
                && o.store@ == or_default(t.store, "./stele.store"@) && o.binding.ty@ == upper_camel(or_default(t.binding, "stele"@)),
            None => r matches Err(Error::UnknownCase { case }) && case@ == or_default(t.case, "camel"@),
        },
{
    let case = match case_of(&t.case) {
        Ok(c) => c,
        Err(e) => return Err(e),
    };
    let binding = value_or(&t.binding, "stele");
    Ok(EmitOptions {
        callable: t.callable,
        core: value_or(&t.core, "./stele.gen"),
        store: value_or(&t.store, "./stele.store"),
        case,
        binding: Binding::new(binding.as_str()),
    })
}

/// The options of a package target: its case (default `camel`), version
/// (default `0.0.0`) and binding (default `stele`).
pub fn package_options(p: &Package) -> (r: Result<PackageOptions, Error>)
    ensures
        match case_named(or_default(p.case, "camel"@)) {
            Some(c) => r matches Ok(o) && o.case == c && o.name@ == p.name@ && o.version@ == or_default(p.version, "0.0.0"@)
                && o.store == p.store && o.react == p.react && o.callable == p.callable
                && o.binding.ty@ == upper_camel(or_default(p.binding, "stele"@)),
            None => r matches Err(Error::UnknownCase { case }) && case@ == or_default(p.case, "camel"@),
        },
{
    let case = match case_of(&p.case) {
        Ok(c) => c,
        Err(e) => return Err(e),
    };
    let binding = value_or(&p.binding, "stele");
    Ok(PackageOptions {
        name: copy_string(&p.name),
        version: value_or(&p.version, "0.0.0"),
        store: p.store,
        react: p.react,
        callable: p.callable,
        case,
        binding: Binding::new(binding.as_str()),
    })
}

} // verus!
