//! A self-contained node package (compiled `.js`, `.d.ts` and a
//! `package.json`) rather than loose `.ts` files: codegen as a dependency.

use vstd::prelude::*;
use crate::emit::{emittable, Binding, Case};
use crate::emit::store::{react_dts, react_dts_spec, react_js, react_js_spec, store_dts, store_dts_spec, store_js, store_js_spec};
use crate::emit::ts::{core_dts, core_dts_spec, core_js, core_js_spec, json_quote, json_quote_spec};
use crate::ir::Ir;
use crate::text::{join, owned, push_str, seq_join, views};

verus! {

pub struct PackageOptions {
    pub name: String,
    pub version: String,
    pub store: bool,
    pub react: bool,
    pub callable: bool,
    pub case: Case,
    pub binding: Binding,
}

/// One `exports` subpath. `types` comes before `default`: conditions match in
/// declaration order and `default` matches everything.
pub open spec fn subpath_spec(key: Seq<char>, js: Seq<char>, dts: Seq<char>) -> Seq<char> {
    "    "@ + key + ": { \"types\": \""@ + dts + "\", \"default\": \""@ + js + "\" }"@
}

pub fn subpath(key: &str, js: &str, dts: &str) -> (r: String)
    ensures
        r@ == subpath_spec(key@, js@, dts@),
{
    let mut s = owned("    ");
    push_str(&mut s, key);
    push_str(&mut s, ": { \"types\": \"");
    push_str(&mut s, dts);
    push_str(&mut s, "\", \"default\": \"");
    push_str(&mut s, js);
    push_str(&mut s, "\" }");
    s
}

/// The `exports` entries of the package.
pub open spec fn exports_spec(want_store: bool, react: bool) -> Seq<Seq<char>> {
    seq![subpath_spec("\".\""@, "./index.js"@, "./index.d.ts"@)] + (if want_store {
        seq![subpath_spec("\"./store\""@, "./store.js"@, "./store.d.ts"@)]
    } else {
        Seq::empty()
    }) + (if react {
        seq![subpath_spec("\"./react\""@, "./react.js"@, "./react.d.ts"@)]
    } else {
        Seq::empty()
    })
}

/// The `package.json`: CommonJS (no `"type": "module"`), fields in a fixed
/// order, name and version JSON-escaped.
pub open spec fn package_json_spec(name: Seq<char>, version: Seq<char>, want_store: bool, react: bool) -> Seq<char> {
    "{\n  \"name\": "@ + json_quote_spec(name) + ",\n  \"version\": "@ + json_quote_spec(version)
        + ",\n  \"main\": \"./index.js\",\n  \"types\": \"./index.d.ts\",\n  \"exports\": {\n"@ + seq_join(
        exports_spec(want_store, react),
        ",\n"@,
    ) + "\n  }\n}\n"@
}

fn package_json(o: &PackageOptions, want_store: bool) -> (r: String)
    ensures
        r@ == package_json_spec(o.name@, o.version@, want_store, o.react),
{
    let mut exports: Vec<String> = Vec::new();
    exports.push(subpath("\".\"", "./index.js", "./index.d.ts"));
    if want_store {
        exports.push(subpath("\"./store\"", "./store.js", "./store.d.ts"));
    }
    if o.react {
        exports.push(subpath("\"./react\"", "./react.js", "./react.d.ts"));
    }
    proof {
        assert(views(exports@) =~= exports_spec(want_store, o.react));
    }
    let mut s = owned("{\n  \"name\": ");
    push_str(&mut s, json_quote(o.name.as_str()).as_str());
    push_str(&mut s, ",\n  \"version\": ");
    push_str(&mut s, json_quote(o.version.as_str()).as_str());
    push_str(&mut s, ",\n  \"main\": \"./index.js\",\n  \"types\": \"./index.d.ts\",\n  \"exports\": {\n");
    push_str(&mut s, join(&exports, ",\n").as_str());
    push_str(&mut s, "\n  }\n}\n");
    s
}

/// Every file of the package, as `(file name, contents)`: the core module,
/// the store whenever the store or React bindings are asked for (React binds
/// to it), the React bindings, and the `package.json`.
pub open spec fn render_spec(
    ir: &Ir,
    name: Seq<char>,
    version: Seq<char>,
    store: bool,
    react: bool,
    callable: bool,
    c: Case,
    ty: Seq<char>,
) -> Seq<(Seq<char>, Seq<char>)> {
    let want_store = store || react;
    seq![("index.js"@, core_js_spec(ir, callable, c, ty)), ("index.d.ts"@, core_dts_spec(ir, callable, c, ty))]
        + (if want_store {
        seq![("store.js"@, store_js_spec(ir.canonical@, ty)), ("store.d.ts"@, store_dts_spec(ty))]
    } else {
        Seq::empty()
    }) + (if react {
        seq![("react.js"@, react_js_spec(ty)), ("react.d.ts"@, react_dts_spec(ty))]
    } else {
        Seq::empty()
    }) + seq![("package.json"@, package_json_spec(name, version, want_store, react))]
}

pub open spec fn files_view(s: Seq<(String, String)>) -> Seq<(Seq<char>, Seq<char>)> {
    s.map_values(|f: (String, String)| (f.0@, f.1@))
}

/// Every file of the package (see `render_spec`).
pub fn render(ir: &Ir, o: &PackageOptions) -> (r: Vec<(String, String)>)
    requires
        emittable(ir),
    ensures
        files_view(r@) == render_spec(ir, o.name@, o.version@, o.store, o.react, o.callable, o.case, o.binding.ty@),
{
    let want_store = o.store || o.react;
    let mut files: Vec<(String, String)> = Vec::new();
    files.push((owned("index.js"), core_js(ir, o.callable, o.case, &o.binding)));
    files.push((owned("index.d.ts"), core_dts(ir, o.callable, o.case, &o.binding)));
    if want_store {
        files.push((owned("store.js"), store_js(ir, &o.binding)));
        files.push((owned("store.d.ts"), store_dts(&o.binding)));
    }
    if o.react {
        files.push((owned("react.js"), react_js(&o.binding)));
        files.push((owned("react.d.ts"), react_dts(&o.binding)));
    }
    files.push((owned("package.json"), package_json(o, want_store)));
    proof {
        assert(files_view(files@) =~= render_spec(ir, o.name@, o.version@, o.store, o.react, o.callable, o.case, o.binding.ty@));
    }
    files
}

/// Asking for React bindings always brings the store they bind to.
pub proof fn law_react_implies_store(
    ir: &Ir,
    name: Seq<char>,
    version: Seq<char>,
    store: bool,
    callable: bool,
    c: Case,
    ty: Seq<char>,
)
    ensures
        ({
            let files = render_spec(ir, name, version, store, true, callable, c, ty);
            exists|i: int| 0 <= i < files.len() && #[trigger] files[i].0 == "store.js"@
        }),
{
    let files = render_spec(ir, name, version, store, true, callable, c, ty);
    assert(files[2].0 == "store.js"@);
}

} // verus!
