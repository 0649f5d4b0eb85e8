//! The `store` and `react` targets: a module that holds the active locale's
//! accessor object, and React bindings that read it.

use vstd::prelude::*;
use crate::emit::{Binding, Emitter};
use crate::emit::ts::{json_quote, json_quote_spec};
use crate::error::Error;
use crate::ir::Ir;
use crate::text::{owned, push_str};

verus! {

/// The `store` target: holds the active locale's accessors.
pub struct StoreEmitter {
    /// Import specifier of the core module.
    pub core: String,
    pub binding: Binding,
}

/// The `react` target: a hook over the store.
pub struct ReactEmitter {
    /// Import specifier of the store module.
    pub store: String,
    pub binding: Binding,
}

/// The store module (TypeScript).
pub open spec fn store_ts_spec(core: Seq<char>, ty: Seq<char>) -> Seq<char> {
    "// AUTO-GENERATED by stele \u{2014} do not edit.\n"@ + "import { create"@ + ty + ", type Locale, type "@ + ty + " } from "@
        + json_quote_spec(core) + ";\n\n"@ + "let cached: "@ + ty + " | undefined;\n\n"@
        + "export function setLocale(locale: Locale): void {\n  cached = create"@ + ty + "(locale);\n}\n\n"@
        + "export function get"@ + ty + "(): "@ + ty + " {\n"@
        + "  if (cached === undefined) throw new Error(\"setLocale must be called first\");\n  return cached;\n}\n"@
}

impl Emitter for StoreEmitter {
    /// The store module (see `store_ts_spec`).
    fn emit(&self, ir: &Ir) -> (r: String)
        ensures
            r@ == store_ts_spec(self.core@, self.binding.ty@),
    {
        let ty = self.binding.ty.as_str();
        let mut s = owned("// AUTO-GENERATED by stele \u{2014} do not edit.\n");
        push_str(&mut s, "import { create");
        push_str(&mut s, ty);
        push_str(&mut s, ", type Locale, type ");
        push_str(&mut s, ty);
        push_str(&mut s, " } from ");
        push_str(&mut s, json_quote(self.core.as_str()).as_str());
        push_str(&mut s, ";\n\n");
        push_str(&mut s, "let cached: ");
        push_str(&mut s, ty);
        push_str(&mut s, " | undefined;\n\n");
        push_str(&mut s, "export function setLocale(locale: Locale): void {\n  cached = create");
        push_str(&mut s, ty);
        push_str(&mut s, "(locale);\n}\n\n");
        push_str(&mut s, "export function get");
        push_str(&mut s, ty);
        push_str(&mut s, "(): ");
        push_str(&mut s, ty);
        push_str(&mut s, " {\n");
        push_str(&mut s, "  if (cached === undefined) throw new Error(\"setLocale must be called first\");\n  return cached;\n}\n");
        s
    }

    fn validate(&self, ir: &Ir) -> (r: Result<(), Error>)
        ensures
            r is Ok,
    {
        Ok(())
    }
}

/// The React module (TypeScript).
pub open spec fn react_ts_spec(store: Seq<char>, ty: Seq<char>) -> Seq<char> {
    "// AUTO-GENERATED by stele \u{2014} do not edit.\n"@ + "import { get"@ + ty + " } from "@ + json_quote_spec(store)
        + ";\n\n"@ + "export function use"@ + ty + "() {\n  return get"@ + ty + "();\n}\n"@
}

impl Emitter for ReactEmitter {
    /// The React module (see `react_ts_spec`).
    fn emit(&self, ir: &Ir) -> (r: String)
        ensures
            r@ == react_ts_spec(self.store@, self.binding.ty@),
    {
        let ty = self.binding.ty.as_str();
        let mut s = owned("// AUTO-GENERATED by stele \u{2014} do not edit.\n");
        push_str(&mut s, "import { get");
        push_str(&mut s, ty);
        push_str(&mut s, " } from ");
        push_str(&mut s, json_quote(self.store.as_str()).as_str());
        push_str(&mut s, ";\n\n");
        push_str(&mut s, "export function use");
        push_str(&mut s, ty);
        push_str(&mut s, "() {\n  return get");
        push_str(&mut s, ty);
        push_str(&mut s, "();\n}\n");
        s
    }

    fn validate(&self, ir: &Ir) -> (r: Result<(), Error>)
        ensures
            r is Ok,
    {
        Ok(())
    }
}

/// The package's `store.js`: the active locale starts as the canonical one.
pub open spec fn store_js_spec(canonical: Seq<char>, ty: Seq<char>) -> Seq<char> {
    "// AUTO-GENERATED by stele \u{2014} do not edit.\n\"use strict\";\n"@ + "const { create"@ + ty + " } = require(\"./index.js\");\n\n"@
        + "let current = "@ + json_quote_spec(canonical) + ";\n"@ + "let cached = create"@ + ty + "(current);\n\n"@
        + "function setLocale(locale) {\n  current = locale;\n  cached = create"@ + ty + "(locale);\n}\n\n"@
        + "function getLocale() {\n  return current;\n}\n\n"@ + "function get"@ + ty + "() {\n  return cached;\n}\n\n"@
        + "module.exports = { setLocale, getLocale, get"@ + ty + " };\n"@
}

pub fn store_js(ir: &Ir, binding: &Binding) -> (r: String)
    ensures
        r@ == store_js_spec(ir.canonical@, binding.ty@),
{
    let ty = binding.ty.as_str();
    let mut s = owned("// AUTO-GENERATED by stele \u{2014} do not edit.\n\"use strict\";\n");
    push_str(&mut s, "const { create");
    push_str(&mut s, ty);
    push_str(&mut s, " } = require(\"./index.js\");\n\n");
    push_str(&mut s, "let current = ");
    push_str(&mut s, json_quote(ir.canonical.as_str()).as_str());
    push_str(&mut s, ";\n");
    push_str(&mut s, "let cached = create");
    push_str(&mut s, ty);
    push_str(&mut s, "(current);\n\n");
    push_str(&mut s, "function setLocale(locale) {\n  current = locale;\n  cached = create");
    push_str(&mut s, ty);
    push_str(&mut s, "(locale);\n}\n\n");
    push_str(&mut s, "function getLocale() {\n  return current;\n}\n\n");
    push_str(&mut s, "function get");
    push_str(&mut s, ty);
    push_str(&mut s, "() {\n  return cached;\n}\n\n");
    push_str(&mut s, "module.exports = { setLocale, getLocale, get");
    push_str(&mut s, ty);
    push_str(&mut s, " };\n");
    s
}

pub open spec fn store_dts_spec(ty: Seq<char>) -> Seq<char> {
    "// AUTO-GENERATED by stele \u{2014} do not edit.\n\n"@ + "import type { Locale, "@ + ty + " } from \"./index\";\n\n"@
        + "export declare function setLocale(locale: Locale): void;\n"@ + "export declare function getLocale(): Locale;\n"@
        + "export declare function get"@ + ty + "(): "@ + ty + ";\n"@
}

pub fn store_dts(binding: &Binding) -> (r: String)
    ensures
        r@ == store_dts_spec(binding.ty@),
{
    let ty = binding.ty.as_str();
    let mut s = owned("// AUTO-GENERATED by stele \u{2014} do not edit.\n\n");
    push_str(&mut s, "import type { Locale, ");
    push_str(&mut s, ty);
    push_str(&mut s, " } from \"./index\";\n\n");
    push_str(&mut s, "export declare function setLocale(locale: Locale): void;\n");
    push_str(&mut s, "export declare function getLocale(): Locale;\n");
    push_str(&mut s, "export declare function get");
    push_str(&mut s, ty);
    push_str(&mut s, "(): ");
    push_str(&mut s, ty);
    push_str(&mut s, ";\n");
    s
}

pub open spec fn react_js_spec(ty: Seq<char>) -> Seq<char> {
    "// AUTO-GENERATED by stele \u{2014} do not edit.\n\"use strict\";\n"@ + "const { get"@ + ty + " } = require(\"./store.js\");\n\n"@
        + "function use"@ + ty + "() {\n  return get"@ + ty + "();\n}\n\n"@ + "module.exports = { use"@ + ty + " };\n"@
}

pub fn react_js(binding: &Binding) -> (r: String)
    ensures
        r@ == react_js_spec(binding.ty@),
{
    let ty = binding.ty.as_str();
    let mut s = owned("// AUTO-GENERATED by stele \u{2014} do not edit.\n\"use strict\";\n");
    push_str(&mut s, "const { get");
    push_str(&mut s, ty);
    push_str(&mut s, " } = require(\"./store.js\");\n\n");
    push_str(&mut s, "function use");
    push_str(&mut s, ty);
    push_str(&mut s, "() {\n  return get");
    push_str(&mut s, ty);
    push_str(&mut s, "();\n}\n\n");
    push_str(&mut s, "module.exports = { use");
    push_str(&mut s, ty);
    push_str(&mut s, " };\n");
    s
}

pub open spec fn react_dts_spec(ty: Seq<char>) -> Seq<char> {
    "// AUTO-GENERATED by stele \u{2014} do not edit.\n\n"@ + "import type { "@ + ty + " } from \"./index\";\n\n"@
        + "export declare function use"@ + ty + "(): "@ + ty + ";\n"@
}

pub fn react_dts(binding: &Binding) -> (r: String)
    ensures
        r@ == react_dts_spec(binding.ty@),
{
    let ty = binding.ty.as_str();
    let mut s = owned("// AUTO-GENERATED by stele \u{2014} do not edit.\n\n");
    push_str(&mut s, "import type { ");
    push_str(&mut s, ty);
    push_str(&mut s, " } from \"./index\";\n\n");
    push_str(&mut s, "export declare function use");
    push_str(&mut s, ty);
    push_str(&mut s, "(): ");
    push_str(&mut s, ty);
    push_str(&mut s, ";\n");
    s
}

} // verus!
