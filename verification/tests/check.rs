use stelegen::check::{check, Report, Severity};
use stelegen::json::{insert_field, Json};

fn s(x: &str) -> Json {
    Json::string(x)
}

fn obj(pairs: Vec<(&str, Json)>) -> Json {
    let mut fields: Vec<(String, Json)> = Vec::new();
    for (k, v) in pairs {
        insert_field(&mut fields, k.to_string(), v);
    }
    Json::Object(fields)
}

fn cat(pairs: Vec<(&str, Json)>) -> Vec<(String, Json)> {
    let mut fields: Vec<(String, Json)> = Vec::new();
    for (k, v) in pairs {
        insert_field(&mut fields, k.to_string(), v);
    }
    fields
}

fn has_error(r: &Report, key: &str, needle: &str) -> bool {
    r.diagnostics
        .iter()
        .any(|d| d.severity == Severity::Error && d.key == key && d.message.contains(needle))
}

#[test]
fn clean_catalog_has_no_errors() {
    let r = check(
        "en",
        &cat(vec![
            ("en", obj(vec![("home", obj(vec![("hi", s("Hi {{name}}"))]))])),
            ("es", obj(vec![("home", obj(vec![("hi", s("Hola {{name}}"))]))])),
        ]),
    )
    .ok()
    .unwrap();
    assert_eq!(r.errors(), 0);
    assert_eq!(r.key_count, 1);
}

#[test]
fn flags_missing_translation() {
    let r = check(
        "en",
        &cat(vec![
            ("en", obj(vec![("a", s("x")), ("b", s("y"))])),
            ("es", obj(vec![("a", s("x"))])),
        ]),
    )
    .ok()
    .unwrap();
    assert!(has_error(&r, "b", "missing translation"));
}

#[test]
fn flags_placeholder_not_in_canonical_as_error() {
    let r = check(
        "en",
        &cat(vec![
            ("en", obj(vec![("hi", s("Hi {{name}}"))])),
            ("es", obj(vec![("hi", s("Hola {{nombre}}"))])),
        ]),
    )
    .ok()
    .unwrap();
    assert!(has_error(&r, "hi", "nombre"));
}

#[test]
fn dropped_placeholder_is_a_warning_not_error() {
    let r = check(
        "en",
        &cat(vec![
            ("en", obj(vec![("hi", s("Hi {{name}}"))])),
            ("es", obj(vec![("hi", s("Hola"))])),
        ]),
    )
    .ok()
    .unwrap();
    assert_eq!(r.errors(), 0);
    assert_eq!(r.warnings(), 1);
}

#[test]
fn extra_key_is_a_warning() {
    let r = check(
        "en",
        &cat(vec![
            ("en", obj(vec![("a", s("x"))])),
            ("es", obj(vec![("a", s("x")), ("ghost", s("boo"))])),
        ]),
    )
    .ok()
    .unwrap();
    assert_eq!(r.errors(), 0);
    assert!(r
        .diagnostics
        .iter()
        .any(|d| d.key == "ghost" && d.severity == Severity::Warning));
}

fn plural(pairs: Vec<(&str, Json)>) -> Json {
    obj(vec![("$plural", obj(pairs))])
}

#[test]
fn flags_missing_plural_category_for_locale() {
    let r = check(
        "en",
        &cat(vec![
            ("en", obj(vec![("n", plural(vec![("one", s("{{count}}")), ("other", s("{{count}}"))]))])),
            ("pl", obj(vec![("n", plural(vec![("one", s("{{count}}")), ("other", s("{{count}}"))]))])),
        ]),
    )
    .ok()
    .unwrap();
    assert!(has_error(&r, "n", "few") || has_error(&r, "n", "many"));
}

fn select(param: &str, cases: Vec<(&str, Json)>) -> Json {
    obj(vec![("$select", obj(vec![("param", s(param)), ("cases", obj(cases))]))])
}

#[test]
fn flags_missing_select_case() {
    let r = check(
        "en",
        &cat(vec![
            ("en", obj(vec![("g", select("gender", vec![("female", s("f")), ("male", s("m")), ("other", s("o"))]))])),
            ("es", obj(vec![("g", select("gender", vec![("male", s("m")), ("other", s("o"))]))])),
        ]),
    )
    .ok()
    .unwrap();
    assert!(has_error(&r, "g", "female"));
}

#[test]
fn flags_select_param_mismatch() {
    let r = check(
        "en",
        &cat(vec![
            ("en", obj(vec![("g", select("gender", vec![("other", s("o"))]))])),
            ("es", obj(vec![("g", select("genero", vec![("other", s("o"))]))])),
        ]),
    )
    .ok()
    .unwrap();
    assert!(has_error(&r, "g", "differs from canonical"));
}

#[test]
fn flags_kind_mismatch() {
    let r = check(
        "en",
        &cat(vec![
            ("en", obj(vec![("n", s("just a string"))])),
            ("es", obj(vec![("n", plural(vec![("other", s("x"))]))])),
        ]),
    )
    .ok()
    .unwrap();
    assert!(has_error(&r, "n", "kind mismatch"));
}

#[test]
fn missing_canonical_is_an_error() {
    let r = check("de", &cat(vec![("en", obj(vec![("a", s("x"))]))]));
    assert!(r.is_err());
}

#[test]
fn report_counts_by_severity() {
    let r = check(
        "en",
        &cat(vec![
            ("en", obj(vec![("a", s("x")), ("b", s("Hi {{name}}"))])),
            ("es", obj(vec![("b", s("Hola")), ("c", s("z"))])),
        ]),
    )
    .ok()
    .unwrap();
    // `a` missing (error); `b` drops `name` and `c` is extra (warnings)
    assert_eq!(r.errors(), 1);
    assert_eq!(r.warnings(), 2);
    assert_eq!(r.key_count, 2);
}
