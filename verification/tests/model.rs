use stelegen::json::{catalog_wf_exec, insert_field, Json};
use stelegen::model::{deep_merge, insert_at, json_stem, load_locales, locale_layout, merge_locale, Entry, Layout};

fn s(x: &str) -> Json {
    Json::string(x)
}

fn obj(pairs: Vec<(&str, Json)>) -> Json {
    let mut fields: Vec<(String, Json)> = Vec::new();
    for (k, v) in pairs {
        insert_field(&mut fields, k.to_string(), v);
    }
    Json::Object(fields)
}

fn at<'a>(v: &'a Json, path: &[&str]) -> Option<&'a Json> {
    let mut cur = v;
    for k in path {
        cur = cur.get(k)?;
    }
    Some(cur)
}

fn text(v: Option<&Json>) -> Option<String> {
    match v {
        Some(Json::Str(t)) => Some(t.clone()),
        _ => None,
    }
}

#[test]
fn insert_nests_by_path_segments() {
    let mut tree = Json::object();
    insert_at(
        &mut tree,
        &vec!["walker".to_string(), "today".to_string()],
        obj(vec![("greeting", s("Hi"))]),
    )
    .ok()
    .unwrap();
    assert_eq!(text(at(&tree, &["walker", "today", "greeting"])), Some("Hi".to_string()));
}

#[test]
fn deep_merge_combines_sibling_namespaces() {
    let mut a = obj(vec![("walker", obj(vec![("today", obj(vec![("greeting", s("Hi"))]))]))]);
    deep_merge(&mut a, obj(vec![("walker", obj(vec![("schedule", obj(vec![("title", s("Schedule"))]))]))]))
        .ok()
        .unwrap();
    assert_eq!(text(at(&a, &["walker", "today", "greeting"])), Some("Hi".to_string()));
    assert_eq!(text(at(&a, &["walker", "schedule", "title"])), Some("Schedule".to_string()));
}

#[test]
fn deep_merge_rejects_collisions() {
    let mut a = obj(vec![("x", s("one"))]);
    assert!(deep_merge(&mut a, obj(vec![("x", s("two"))])).is_err());
}

fn file(name: &str) -> Entry {
    Entry::File { name: name.to_string(), content: Json::Null }
}

fn dir(name: &str, entries: Vec<Entry>) -> Entry {
    Entry::Dir { name: name.to_string(), entries }
}

#[test]
fn folder_layout_records_file_mounts() {
    let en = vec![dir("walker", vec![file("today.json")]), file("nav.json")];
    let layout = locale_layout(Some(&en), false).unwrap();
    let Layout::Folder { files } = layout else {
        panic!("expected a folder layout");
    };
    let got: Vec<_> = files.iter().map(|f| (f.mount.clone(), f.rel.clone())).collect();
    assert!(got.contains(&(vec!["nav".to_string()], "nav.json".to_string())));
    assert!(got.contains(&(vec!["walker".to_string(), "today".to_string()], "walker/today.json".to_string())));
    assert!(matches!(locale_layout(None, true).unwrap(), Layout::Single));
}

#[test]
fn layout_is_none_without_files() {
    assert!(locale_layout(None, false).is_none());
}

#[test]
fn folder_files_come_in_name_order_and_skip_other_files() {
    let en = vec![file("z.json"), file("notes.txt"), file("a.json"), file(".json")];
    let Some(Layout::Folder { files }) = locale_layout(Some(&en), true) else {
        panic!("expected a folder layout");
    };
    let rels: Vec<_> = files.iter().map(|f| f.rel.clone()).collect();
    assert_eq!(rels, vec!["a.json".to_string(), "z.json".to_string()]);
}

#[test]
fn json_stem_follows_file_stem_rules() {
    assert_eq!(json_stem("en.json"), Some("en".to_string()));
    assert_eq!(json_stem("a.b.json"), Some("a.b".to_string()));
    assert_eq!(json_stem(".json"), None);
    assert_eq!(json_stem("en.JSON"), None);
    assert_eq!(json_stem("en.yaml"), None);
}

#[test]
fn locales_from_files_and_folders_are_merged() {
    let entries = vec![
        Entry::File { name: "en.json".to_string(), content: obj(vec![("home", obj(vec![("hi", s("Hi"))]))]) },
        dir(
            "en",
            vec![dir("walker", vec![Entry::File { name: "today.json".to_string(), content: obj(vec![("t", s("Today"))]) }])],
        ),
        Entry::File { name: "es.json".to_string(), content: obj(vec![("home", obj(vec![("hi", s("Hola"))]))]) },
        file("README.md"),
    ];
    let map = load_locales(&entries).ok().unwrap();
    let names: Vec<_> = map.iter().map(|(k, _)| k.clone()).collect();
    assert_eq!(names, vec!["en".to_string(), "es".to_string()]);
    let en = &map[0].1;
    assert_eq!(text(at(en, &["home", "hi"])), Some("Hi".to_string()));
    assert_eq!(text(at(en, &["walker", "today", "t"])), Some("Today".to_string()));
}

#[test]
fn a_key_defined_twice_across_files_is_an_error() {
    let entries = vec![
        Entry::File { name: "en.json".to_string(), content: obj(vec![("nav", obj(vec![("home", s("Home"))]))]) },
        dir("en", vec![Entry::File { name: "nav.json".to_string(), content: obj(vec![("home", s("Start"))]) }]),
    ];
    assert!(load_locales(&entries).is_err());
}

#[test]
fn merge_locale_adds_and_merges() {
    let mut map: Vec<(String, Json)> = Vec::new();
    merge_locale(&mut map, "es".to_string(), obj(vec![("a", s("x"))])).ok().unwrap();
    merge_locale(&mut map, "en".to_string(), obj(vec![("a", s("y"))])).ok().unwrap();
    merge_locale(&mut map, "es".to_string(), obj(vec![("b", s("z"))])).ok().unwrap();
    assert_eq!(map.len(), 2);
    assert_eq!(map[0].0, "en");
    assert_eq!(text(at(&map[1].1, &["b"])), Some("z".to_string()));
    assert!(merge_locale(&mut map, "en".to_string(), obj(vec![("a", s("again"))])).is_err());
}

#[test]
fn value_where_a_namespace_is_needed_is_refused() {
    let mut tree = obj(vec![("walker", s("plain"))]);
    let r = insert_at(&mut tree, &vec!["walker".to_string(), "today".to_string()], obj(vec![]));
    assert!(r.is_err());
}

#[test]
fn catalog_order_is_checked() {
    let good = vec![
        ("en".to_string(), Json::Object(vec![("a".to_string(), Json::string("x")), ("b".to_string(), Json::string("y"))])),
        ("es".to_string(), Json::Object(vec![])),
    ];
    assert!(catalog_wf_exec(&good));
    let unsorted_keys = vec![(
        "en".to_string(),
        Json::Object(vec![("b".to_string(), Json::string("x")), ("a".to_string(), Json::string("y"))]),
    )];
    assert!(!catalog_wf_exec(&unsorted_keys));
    let unsorted_locales = vec![("es".to_string(), Json::Object(vec![])), ("en".to_string(), Json::Object(vec![]))];
    assert!(!catalog_wf_exec(&unsorted_locales));
}
