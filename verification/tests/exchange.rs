use stelegen::exchange::{
    apply_paths, build_paths, export_units, from_csv, from_xliff, parse_format, set_path, to_csv, to_xliff, xml_attr, xml_text,
    xml_unescape, Unit,
};
use stelegen::json::{insert_field, Json};

fn s(x: &str) -> Json {
    Json::string(x)
}

fn obj(pairs: Vec<(&str, Json)>) -> Json {
    let mut fields: Vec<(String, Json)> = Vec::new();
    for (k, v) in pairs {
        insert_field(&mut fields, k.to_string(), v);
    }
    Json::Object(fields)
}

fn catalog() -> Json {
    obj(vec![
        ("home", obj(vec![("hi", s("Hi {{name}}"))])),
        ("n", obj(vec![("$plural", obj(vec![("one", s("{{count}} dog")), ("other", s("{{count}} dogs"))]))])),
        (
            "g",
            obj(vec![(
                "$select",
                obj(vec![
                    ("param", s("gender")),
                    ("cases", obj(vec![("female", s("her")), ("male", s("his")), ("other", s("their"))])),
                ]),
            )]),
        ),
    ])
}

fn at<'a>(v: &'a Json, path: &[&str]) -> Option<&'a Json> {
    let mut cur = v;
    for k in path {
        cur = cur.get(k)?;
    }
    Some(cur)
}

fn text(v: Option<&Json>) -> Option<String> {
    match v {
        Some(Json::Str(t)) => Some(t.clone()),
        _ => None,
    }
}

fn unit(id: &str, source: &str, target: &str) -> Unit {
    Unit { id: id.to_string(), source: source.to_string(), target: target.to_string() }
}

#[test]
fn export_expands_plurals_to_target_categories() {
    let units = export_units(&catalog(), None, "pl").ok().unwrap();
    let ids: Vec<_> = units.iter().map(|u| u.id.as_str()).collect();
    assert!(ids.contains(&"n#few"));
    assert!(ids.contains(&"n#many"));
    assert!(ids.contains(&"g#female"));
    assert!(ids.contains(&"home.hi"));
}

#[test]
fn csv_round_trips() {
    let units = export_units(&catalog(), None, "es").ok().unwrap();
    let csv = to_csv("en", "es", &units).ok().unwrap();
    let (loc, back) = from_csv(&csv).ok().unwrap();
    assert_eq!(loc, "es");
    assert_eq!(back.len(), units.len());
    assert_eq!(back[0].id, units[0].id);
}

#[test]
fn xliff_round_trips_with_escaping() {
    let units = vec![unit("a#one", "x < y & \"z\"", "ä < ö")];
    let xliff = to_xliff("en", "es", &units);
    let (loc, back) = from_xliff(&xliff);
    assert_eq!(loc, "es");
    assert_eq!(back[0].id, "a#one");
    assert_eq!(back[0].source, "x < y & \"z\"");
    assert_eq!(back[0].target, "ä < ö");
}

#[test]
fn import_rebuilds_structure_from_canonical() {
    let units = vec![
        unit("home.hi", "Hi", "Hola {{name}}"),
        unit("n#one", "", "{{count}} perro"),
        unit("n#other", "", "{{count}} perros"),
        unit("g#female", "", "suya"),
        unit("g#other", "", "suyo"),
    ];
    let paths = build_paths(&catalog(), &units);
    let mut root = Json::object();
    for (p, v) in paths {
        set_path(&mut root, &p, v);
    }
    assert_eq!(text(at(&root, &["n", "$plural", "one"])), Some("{{count}} perro".to_string()));
    assert_eq!(text(at(&root, &["g", "$select", "param"])), Some("gender".to_string()));
    assert_eq!(text(at(&root, &["g", "$select", "cases", "female"])), Some("suya".to_string()));
    assert_eq!(text(at(&root, &["home", "hi"])), Some("Hola {{name}}".to_string()));
}

#[test]
fn import_omits_untranslated() {
    let units = vec![unit("home.hi", "Hi", "")];
    assert!(build_paths(&catalog(), &units).is_empty());
}

#[test]
fn export_pairs_existing_translations_and_falls_back_to_other() {
    let target = obj(vec![("home", obj(vec![("hi", s("Hola {{name}}"))]))]);
    let units = export_units(&catalog(), Some(&target), "pl").ok().unwrap();
    let hi = units.iter().find(|u| u.id == "home.hi").unwrap();
    assert_eq!(hi.source, "Hi {{name}}");
    assert_eq!(hi.target, "Hola {{name}}");
    let few = units.iter().find(|u| u.id == "n#few").unwrap();
    assert_eq!(few.source, "{{count}} dogs");
    assert_eq!(few.target, "");
}

#[test]
fn export_fails_for_an_unknown_locale_tag() {
    assert!(export_units(&catalog(), None, "not a tag!").is_err());
}

#[test]
fn escaping_then_unescaping_gives_back_the_text() {
    let raw = "a < b && \"c\" > d's";
    assert_eq!(xml_text(raw), "a &lt; b &amp;&amp; \"c\" &gt; d's");
    assert_eq!(xml_attr(raw), "a &lt; b &amp;&amp; &quot;c&quot; &gt; d's");
    assert_eq!(xml_unescape(&xml_text(raw)), raw);
    assert_eq!(xml_unescape(&xml_attr(raw)), raw);
    assert_eq!(xml_unescape("&apos;&#39;&amp;lt;"), "''&lt;");
}

#[test]
fn xliff_document_layout() {
    let x = to_xliff("en", "de", &vec![unit("k", "S", "T")]);
    assert_eq!(
        x,
        "<?xml version=\"1.0\" encoding=\"UTF-8\"?>\n<xliff version=\"1.2\">\n  <file original=\"stele\" source-language=\"en\" target-language=\"de\" datatype=\"plaintext\">\n    <body>\n      <trans-unit id=\"k\">\n        <source>S</source>\n        <target>T</target>\n      </trans-unit>\n    </body>\n  </file>\n</xliff>\n"
    );
}

#[test]
fn xliff_reader_skips_units_without_id_and_reads_attributes_in_any_order() {
    let doc = "<xliff><file target-language=\"fr\"><trans-unit id=\"\"><source>a</source></trans-unit>\
               <trans-unit resname=\"r\" id=\"k\" approved=\"yes\"><target>T</target><source>S</source></trans-unit></file></xliff>";
    let (loc, units) = from_xliff(doc);
    assert_eq!(loc, "fr");
    assert_eq!(units.len(), 1);
    assert_eq!(units[0].id, "k");
    assert_eq!(units[0].source, "S");
    assert_eq!(units[0].target, "T");
}

#[test]
fn parse_format_accepts_known_names_in_any_case() {
    assert_eq!(parse_format("CSV").ok(), Some("csv"));
    assert_eq!(parse_format("xlf").ok(), Some("xliff"));
    assert_eq!(parse_format("Xliff").ok(), Some("xliff"));
    assert!(parse_format("yaml").is_err());
}

#[test]
fn set_path_replaces_the_whole_leaf() {
    let mut root = obj(vec![("n", obj(vec![("$plural", obj(vec![("one", s("a")), ("few", s("b"))]))]))]);
    set_path(&mut root, &vec!["n".to_string()], obj(vec![("$plural", obj(vec![("one", s("c"))]))]));
    assert_eq!(text(at(&root, &["n", "$plural", "one"])), Some("c".to_string()));
    assert!(at(&root, &["n", "$plural", "few"]).is_none());
    let mut scalar = s("x");
    set_path(&mut scalar, &vec!["a".to_string(), "b".to_string()], s("y"));
    assert_eq!(text(at(&scalar, &["a", "b"])), Some("y".to_string()));
}

#[test]
fn xliff_round_trips_many_units() {
    let units = vec![
        unit("home.title", "Sidewalk", "Acera"),
        unit("inbox.unread#one", "{{count}} <new> & 'old'", ""),
        unit("inbox.unread#other", "\"quoted\"", "x > y"),
    ];
    let doc = to_xliff("en-US", "pt_BR", &units);
    let (loc, back) = from_xliff(&doc);
    assert_eq!(loc, "pt_BR");
    assert_eq!(back.len(), 3);
    for (a, b) in units.iter().zip(back.iter()) {
        assert_eq!(a.id, b.id);
        assert_eq!(a.source, b.source);
        assert_eq!(a.target, b.target);
    }
}

#[test]
fn import_ignores_ids_outside_the_canonical_shape() {
    let units = vec![
        unit("home", "", "not a leaf"),
        unit("home.bye", "", "adiós"),
        unit("n#bogus", "", "x"),
        unit("g#neutral", "", "y"),
        unit("n#few", "", "{{count}} psy"),
    ];
    let paths = build_paths(&catalog(), &units);
    assert_eq!(paths.len(), 1);
    assert_eq!(paths[0].0, vec!["n".to_string()]);
    assert_eq!(text(at(&paths[0].1, &["$plural", "few"])), Some("{{count}} psy".to_string()));
    assert!(at(&paths[0].1, &["$plural", "bogus"]).is_none());
}

#[test]
fn csv_with_a_short_record_is_refused() {
    assert!(from_csv("id,en,es\nhome.title,Hi\n").is_err());
    let (loc, units) = from_csv("id,en,es\nhome.title,Hi,Hola\n").ok().unwrap();
    assert_eq!(loc, "es");
    assert_eq!(units.len(), 1);
}

#[test]
fn csv_export_always_succeeds() {
    let units = vec![unit("a,b", "x \"quoted\"\nline", ""), unit("c", "", "")];
    assert!(to_csv("en", "es", &units).is_ok());
}

#[test]
fn xliff_round_trips_ids_with_equals_signs() {
    let units = vec![unit("a=b", "s", "t"), unit("mid=x", "", "u")];
    let (loc, back) = from_xliff(&to_xliff("en", "fr", &units));
    assert_eq!(loc, "fr");
    assert_eq!(back.len(), 2);
    assert_eq!(back[0].id, "a=b");
    assert_eq!(back[1].id, "mid=x");
    assert_eq!(back[1].target, "u");
}

#[test]
fn xliff_round_trips_ids_ending_in_id_equals_where_the_reader_keeps_them() {
    let units = vec![unit("xid=", "s", "t"), unit("k", "S", "T")];
    let (_, back) = from_xliff(&to_xliff("en", "fr", &units));
    assert_eq!(back.len(), 2);
    assert_eq!(back[0].id, "xid=");
    assert_eq!(back[1].id, "k");
    let last = vec![unit("k", "", ""), unit("a id=", "no quotes", "here")];
    let (_, back) = from_xliff(&to_xliff("en", "fr", &last));
    assert_eq!(back.len(), 2);
    assert_eq!(back[1].id, "a id=");
    assert_eq!(back[1].target, "here");
}

#[test]
fn apply_paths_merges_onto_the_existing_tree() {
    let mut root = obj(vec![("home", obj(vec![("bye", s("Adiós")), ("hi", s("Hola"))]))]);
    let paths = vec![
        (vec!["home".to_string(), "hi".to_string()], s("Buenas")),
        (vec!["n".to_string()], s("uno")),
        (vec!["home".to_string(), "hi".to_string()], s("Hola otra vez")),
    ];
    apply_paths(&mut root, paths);
    assert_eq!(text(at(&root, &["home", "bye"])), Some("Adiós".to_string()));
    assert_eq!(text(at(&root, &["home", "hi"])), Some("Hola otra vez".to_string()));
    assert_eq!(text(at(&root, &["n"])), Some("uno".to_string()));
}
