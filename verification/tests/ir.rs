use stelegen::ir::{build_ir, params_from, Kind, MessageValue, ParamType};
use stelegen::json::{insert_field, Json};
use stelegen::placeholder::normalize;

fn s(x: &str) -> Json {
    Json::string(x)
}

fn obj(pairs: Vec<(&str, Json)>) -> Json {
    let mut fields: Vec<(String, Json)> = Vec::new();
    for (k, v) in pairs {
        insert_field(&mut fields, k.to_string(), v);
    }
    Json::Object(fields)
}

fn locale(v: Json) -> Vec<(String, Json)> {
    vec![("en".to_string(), v)]
}

#[test]
fn extracts_double_brace_params_whitespace_tolerant() {
    let names: Vec<_> = params_from("Hi {{name}}, {{ count }} nearby")
        .into_iter()
        .map(|p| p.name)
        .collect();
    assert_eq!(names, vec!["name", "count"]);
}

#[test]
fn normalize_canonicalizes_spacing_and_leaves_single_braces() {
    assert_eq!(normalize("Hi {{ name }}"), "Hi {{name}}");
    assert_eq!(normalize("{{count}} dogs"), "{{count}} dogs");
    assert_eq!(normalize("set it to {x}"), "set it to {x}");
}

#[test]
fn plural_params_union_across_all_forms() {
    let ir = build_ir(
        "en",
        &locale(obj(vec![(
            "m",
            obj(vec![(
                "$plural",
                obj(vec![("one", s("{{name}} has {{count}}")), ("other", s("{{count}} items"))]),
            )]),
        )])),
    )
    .ok()
    .unwrap();
    let m = ir.messages.iter().find(|m| m.dotted() == "m").unwrap();
    let names: Vec<_> = m.params.iter().map(|p| p.name.as_str()).collect();
    assert!(names.contains(&"name") && names.contains(&"count"));
}

#[test]
fn malformed_plural_is_rejected() {
    assert!(build_ir("en", &locale(obj(vec![("p", obj(vec![("$plural", s("nope"))]))]))).is_err());
    assert!(build_ir("en", &locale(obj(vec![("p", obj(vec![("$plural", obj(vec![("one", s("x"))]))]))]))).is_err());
    assert!(build_ir(
        "en",
        &locale(obj(vec![("p", obj(vec![("$plural", obj(vec![("banana", s("x")), ("other", s("y"))]))]))]))
    )
    .is_err());
}

#[test]
fn count_param_is_a_number() {
    let ps = params_from("{{count}} of {{total}}, {{count}} again");
    assert_eq!(ps.len(), 2);
    assert!(ps[0].name == "count" && ps[0].ty == ParamType::Number);
    assert!(ps[1].name == "total" && ps[1].ty == ParamType::String);
}

#[test]
fn missing_translation_falls_back_to_canonical() {
    let locales = vec![
        ("en".to_string(), obj(vec![("a", s("Hi {{ name }}")), ("b", s("Bye"))])),
        ("es".to_string(), obj(vec![("a", s("Hola"))])),
    ];
    let ir = build_ir("en", &locales).ok().unwrap();
    assert_eq!(ir.locales, vec!["en", "es"]);
    let b = ir.messages.iter().find(|m| m.dotted() == "b").unwrap();
    assert!(b.kind == Kind::Plain);
    let es = b.values.iter().find(|(l, _)| l == "es").unwrap();
    match &es.1 {
        MessageValue::Plain(t) => assert_eq!(t, "Bye"),
        _ => panic!("expected a plain value"),
    }
    let a = ir.messages.iter().find(|m| m.dotted() == "a").unwrap();
    let en = a.values.iter().find(|(l, _)| l == "en").unwrap();
    match &en.1 {
        MessageValue::Plain(t) => assert_eq!(t, "Hi {{name}}"),
        _ => panic!("expected a plain value"),
    }
}

#[test]
fn unknown_canonical_is_refused() {
    assert!(build_ir("fr", &locale(obj(vec![("a", s("x"))]))).is_err());
}

#[test]
fn normalize_trims_any_unicode_white_space_inside_braces() {
    assert_eq!(normalize("{{\u{3000}name\u{a0}}} and {{\tcount\n}}"), "{{name}} and {{count}}");
    assert_eq!(normalize("{{ caf\u{e9}_2 }}"), "{{caf\u{e9}_2}}");
    assert_eq!(normalize("{{ two words }}"), "{{ two words }}");
}
