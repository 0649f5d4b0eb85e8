use stelegen::commands::{check_emittable, generate_package, generate_target, import_format, import_target, select_units};
use stelegen::config::{Package, Target};
use stelegen::emit::pkg::{render, PackageOptions};
use stelegen::emit::swift::{indent, swift_lit};
use stelegen::emit::ts::{json_quote, sig, ts_type};
use stelegen::emit::{cat_char, emitter_for, recase_placeholders, validate_idents, AnyEmitter, Binding, Case, EmitOptions, Emitter};
use stelegen::exchange::Unit;
use stelegen::ir::{Ir, Kind, Message, MessageValue, Param, ParamType, PluralTable};

fn leaf(path: &[&str]) -> Message {
    Message { path: path.iter().map(|s| s.to_string()).collect(), params: vec![], kind: Kind::Plain, values: vec![] }
}

fn ir(messages: Vec<Message>) -> Ir {
    Ir { canonical: "en".into(), locales: vec!["en".into()], messages, plural_rules: vec![] }
}

#[test]
fn case_apply_normalizes_any_input() {
    assert_eq!(Case::Camel.apply("walker_today"), "walkerToday");
    assert_eq!(Case::Camel.apply("greeting-text"), "greetingText");
    assert_eq!(Case::Snake.apply("walkerToday"), "walker_today");
    assert_eq!(Case::Pascal.apply("dog_count"), "DogCount");
    assert_eq!(Case::Preserve.apply("dog_count"), "dog_count");
}

#[test]
fn recase_placeholders_track_the_output_case() {
    assert_eq!(recase_placeholders("Hi {{first_name}}", Case::Camel), "Hi {{firstName}}");
    assert_eq!(recase_placeholders("Hi {{firstName}}", Case::Snake), "Hi {{first_name}}");
}

#[test]
fn validate_flags_collisions_and_passes_clean() {
    let collide = ir(vec![leaf(&["dog_count"]), leaf(&["dogCount"])]);
    assert!(validate_idents(&collide, Case::Camel).is_err());
    let clean = ir(vec![leaf(&["dog_count"]), leaf(&["walker_today"])]);
    assert!(validate_idents(&clean, Case::Camel).is_ok());
}

#[test]
fn validate_rejects_invalid_identifiers() {
    let bad = ir(vec![leaf(&["2fa"])]);
    assert!(validate_idents(&bad, Case::Preserve).is_err());
}

#[test]
fn validate_rejects_reserved_object_keys() {
    assert!(validate_idents(&ir(vec![leaf(&["toString"])]), Case::Camel).is_err());
    assert!(validate_idents(&ir(vec![leaf(&["__proto__"])]), Case::Preserve).is_err());
    assert!(validate_idents(&ir(vec![leaf(&["constructor"])]), Case::Camel).is_err());
}

fn table() -> PluralTable {
    PluralTable { categories: vec!["other".into()], small: vec!["other".into()], modulo: vec!["other".into()] }
}

fn pkg_ir() -> Ir {
    Ir {
        canonical: "en".into(),
        locales: vec!["en".into(), "es".into()],
        messages: vec![],
        plural_rules: vec![("en".to_string(), table()), ("es".to_string(), table())],
    }
}

fn opts(store: bool, react: bool) -> PackageOptions {
    PackageOptions {
        name: "@myapp/copy".into(),
        version: "1.2.3".into(),
        store,
        react,
        callable: false,
        case: Case::Camel,
        binding: Binding::new("stele"),
    }
}

fn names(files: &[(String, String)]) -> Vec<&str> {
    files.iter().map(|(n, _)| n.as_str()).collect()
}

#[test]
fn full_package_has_all_files() {
    let files = render(&pkg_ir(), &opts(true, true));
    assert_eq!(
        names(&files),
        vec!["index.js", "index.d.ts", "store.js", "store.d.ts", "react.js", "react.d.ts", "package.json"]
    );
}

#[test]
fn react_implies_store() {
    let files = render(&pkg_ir(), &opts(false, true));
    assert!(names(&files).contains(&"store.js"));
}

#[test]
fn core_only_package() {
    let files = render(&pkg_ir(), &opts(false, false));
    assert_eq!(names(&files), vec!["index.js", "index.d.ts", "package.json"]);
}

#[test]
fn package_json_orders_types_before_default() {
    let files = render(&pkg_ir(), &opts(true, true));
    let pj = &files.iter().find(|(n, _)| n == "package.json").unwrap().1;
    let dot = pj.find("\"types\": \"./index.d.ts\"").unwrap();
    let def = pj.find("\"default\": \"./index.js\"").unwrap();
    assert!(dot < def);
    assert!(pj.contains("\"@myapp/copy\""));
    assert!(pj.contains("\"./store\""));
    assert!(pj.contains("\"./react\""));
}

#[test]
fn core_js_is_runtime_only_no_types() {
    let files = render(&pkg_ir(), &opts(false, false));
    let js = &files.iter().find(|(n, _)| n == "index.js").unwrap().1;
    assert!(js.contains("function createStele(locale) {"));
    assert!(js.contains("module.exports = { createStele };"));
    assert!(!js.contains("export "));
    assert!(!js.contains(": Locale"));
    assert!(!js.contains("export interface"));
    let dts = &files.iter().find(|(n, _)| n == "index.d.ts").unwrap().1;
    assert!(dts.contains("export declare function createStele(locale: Locale): Stele;"));
    assert!(!dts.contains("const DATA"));
}

#[test]
fn binding_names_follow_the_brand() {
    let b = Binding::new("copy");
    assert_eq!(b.ty, "Copy");
    assert_eq!(b.factory(), "createCopy");
    assert_eq!(b.hook(), "useCopy");
    assert_eq!(b.getter(), "getCopy");
}

#[test]
fn case_parse_names() {
    assert!(Case::parse("snake").ok() == Some(Case::Snake));
    assert!(Case::parse("kebab").is_err());
}

#[test]
fn cat_char_codes() {
    let got: String = ["zero", "one", "two", "few", "many", "other", "weird"].iter().map(|c| cat_char(c)).collect();
    assert_eq!(got, "z12fmoo");
}

#[test]
fn literal_escapes() {
    assert_eq!(swift_lit("a\"b\\c\n\u{1}\u{1f}"), "\"a\\\"b\\\\c\\n\\u{1}\\u{1f}\"");
    assert_eq!(json_quote("a\"b\\c\n\u{1}\u{8}"), "\"a\\\"b\\\\c\\n\\u0001\\b\"");
}

#[test]
fn indent_pads_non_empty_lines() {
    assert_eq!(indent("a\n\nb\r\nc\n", 2), "  a\n\n  b\n  c");
    assert_eq!(indent("", 4), "");
}

fn greeting_ir() -> Ir {
    let m = Message {
        path: vec!["home".into(), "greeting".into()],
        params: vec![Param { name: "name".into(), ty: ParamType::String }],
        kind: Kind::Plain,
        values: vec![("en".into(), MessageValue::Plain("Hi {{name}}".into()))],
    };
    let n = Message {
        path: vec!["home".into(), "dogs".into()],
        params: vec![Param { name: "count".into(), ty: ParamType::Number }],
        kind: Kind::Plural,
        values: vec![(
            "en".into(),
            MessageValue::Plural(vec![("one".into(), "{{count}} dog".into()), ("other".into(), "{{count}} dogs".into())]),
        )],
    };
    Ir { canonical: "en".into(), locales: vec!["en".into()], messages: vec![m, n], plural_rules: vec![("en".to_string(), table())] }
}

fn emit_opts() -> EmitOptions {
    EmitOptions {
        callable: false,
        core: "./stele.gen".into(),
        store: "./stele.store".into(),
        case: Case::Camel,
        binding: Binding::new("stele"),
    }
}

#[test]
fn typescript_output_has_typed_accessors() {
    let e = emitter_for("ts", &emit_opts()).unwrap();
    let code = e.emit(&greeting_ir());
    assert!(code.contains("export type Locale = \"en\";"));
    assert!(code.contains("export interface Stele {\n  home: {\n    dogs: (a: { count: number }) => string;\n    greeting: (a: { name: string | number }) => string;\n  };\n}"));
    assert!(code.contains("      greeting: (a: { name: string | number }) => interp(D[\"home.greeting\"] as string, a),"));
    assert!(code.contains("      dogs: (a: { count: number }) => plural(locale, D[\"home.dogs\"] as Forms, a.count, a),"));
    assert!(code.contains("const DATA: Record<Locale, Record<string, string | Forms>> = {\n  \"en\": {\n    \"home.dogs\": {\n      \"one\": \"{{count}} dog\",\n      \"other\": \"{{count}} dogs\"\n    },\n    \"home.greeting\": \"Hi {{name}}\"\n  }\n};"));
    assert!(code.contains("  \"en\": \"o\","));
}

#[test]
fn swift_output_has_labelled_arguments() {
    let e = emitter_for("swift", &emit_opts()).unwrap();
    assert!(e.validate(&greeting_ir()).is_ok());
    let code = e.emit(&greeting_ir());
    assert!(code.contains("public enum Locale: String {\n    case en = \"en\"\n}"));
    assert!(code.contains("    public var home: Self.Home { Self.Home(locale) }"));
    assert!(code.contains("        public func greeting(name: String) -> String {\n            SteleData.interp(SteleData.s(locale, \"home.greeting\"), [\"name\": name])\n        }"));
    assert!(code.contains("\"home.dogs\": [\"one\": \"{{count}} dog\", \"other\": \"{{count}} dogs\"],"));
}

#[test]
fn swift_rejects_reserved_namespace_types() {
    let e = emitter_for("swift", &emit_opts()).unwrap();
    assert!(e.validate(&ir(vec![leaf(&["string", "x"])])).is_err());
    assert!(e.validate(&ir(vec![leaf(&["x", "a"]), leaf(&["X", "b"])])).is_err());
}

#[test]
fn unknown_target_language_has_no_emitter() {
    assert!(emitter_for("kotlin", &emit_opts()).is_none());
    assert!(matches!(emitter_for("typescript", &emit_opts()), Some(AnyEmitter::Ts(_))));
    assert!(matches!(emitter_for("react", &emit_opts()), Some(AnyEmitter::React(_))));
}

#[test]
fn generate_target_checks_then_emits() {
    let i = greeting_ir();
    assert!(check_emittable(&i));
    let t = Target {
        lang: "typescript".into(),
        out: "out.ts".into(),
        callable: true,
        core: None,
        store: None,
        case: None,
        binding: Some("copy".into()),
    };
    let code = generate_target(&i, &t).ok().unwrap();
    assert!(code.contains("export function createCopy(locale: Locale): Copy {"));
    let bad = Target { lang: "cobol".into(), ..t };
    assert!(generate_target(&i, &bad).is_err());
    let p = Package {
        name: "pkg".into(),
        version: None,
        out: "dist".into(),
        store: false,
        react: false,
        callable: false,
        case: Some("snake".into()),
        binding: None,
    };
    let files = generate_package(&i, &p).ok().unwrap();
    assert!(files[files.len() - 1].1.contains("\"version\": \"0.0.0\""));
}

#[test]
fn emittable_needs_a_table_per_locale() {
    let mut i = greeting_ir();
    i.locales.push("de".into());
    assert!(!check_emittable(&i));
}

#[test]
fn import_decisions() {
    assert_eq!(import_format(None, Some("xlf"), "a.xlf").ok(), Some("xliff"));
    assert!(import_format(None, Some("txt"), "a.txt").is_err());
    assert_eq!(import_format(Some("CSV"), Some("xlf"), "a.xlf").ok(), Some("csv"));
    assert_eq!(import_target(None, "es".into(), "en").ok(), Some("es".to_string()));
    assert!(import_target(Some("en".into()), "es".into(), "en").is_err());
    assert!(import_target(None, "".into(), "en").is_err());
}

#[test]
fn missing_only_export_keeps_untranslated() {
    let units = vec![
        Unit { id: "a".into(), source: "A".into(), target: "".into() },
        Unit { id: "b".into(), source: "B".into(), target: "bb".into() },
    ];
    let kept = select_units(&units, true);
    assert_eq!(kept.len(), 1);
    assert_eq!(kept[0].id, "a");
    assert_eq!(select_units(&units, false).len(), 2);
}

#[test]
fn ts_signatures_follow_the_params() {
    assert_eq!(ts_type(ParamType::Number), "number");
    assert_eq!(ts_type(ParamType::String), "string | number");
    let plain = leaf(&["title"]);
    assert_eq!(sig(&plain, false, Case::Camel), "string");
    assert_eq!(sig(&plain, true, Case::Camel), "() => string");
    let mut greet = leaf(&["greeting"]);
    greet.params = vec![
        Param { name: "first_name".into(), ty: ParamType::String },
        Param { name: "count".into(), ty: ParamType::Number },
    ];
    assert_eq!(sig(&greet, false, Case::Camel), "(a: { firstName: string | number; count: number }) => string");
}

#[test]
fn generated_code_bakes_plural_tables_instead_of_intl() {
    let mut n = leaf(&["dogs"]);
    n.kind = Kind::Plural;
    n.params = vec![Param { name: "count".into(), ty: ParamType::Number }];
    n.values = vec![
        ("en".to_string(), MessageValue::Plural(vec![("other".to_string(), "{{count}} dogs".to_string())])),
        ("es".to_string(), MessageValue::Plural(vec![("other".to_string(), "{{count}} perros".to_string())])),
    ];
    let mut i = pkg_ir();
    i.messages = vec![n];
    assert!(check_emittable(&i));
    let o = EmitOptions {
        callable: false,
        core: "./stele.gen".into(),
        store: "./stele.store".into(),
        case: Case::Camel,
        binding: Binding::new("stele"),
    };
    for lang in ["typescript", "swift"] {
        let code = emitter_for(lang, &o).unwrap().emit(&i);
        assert!(!code.contains("new Intl."), "{lang} output constructs an Intl object");
    }
    for (_, content) in render(&i, &opts(true, true)) {
        assert!(!content.contains("new Intl."));
    }
}
