use stelegen::plural::build_plural_table;

#[test]
fn english_is_one_other() {
    let t = build_plural_table("en").ok().unwrap();
    assert_eq!(t.small[0], "other");
    assert_eq!(t.small[1], "one");
    assert_eq!(t.small[21], "other");
    assert_eq!(t.categories, vec!["one", "other"]);
}

#[test]
fn polish_one_few_many() {
    let t = build_plural_table("pl").ok().unwrap();
    assert_eq!(t.small[1], "one");
    assert_eq!(t.small[2], "few");
    assert_eq!(t.small[5], "many");
    assert_eq!(t.small[22], "few");
    assert_eq!(t.modulo[12], "many");
    assert_eq!(t.modulo[22], "few");
    assert_eq!(t.categories, vec!["one", "few", "many", "other"]);
}

#[test]
fn arabic_exact_rules_dont_fire_at_modulo() {
    let t = build_plural_table("ar").ok().unwrap();
    assert_eq!(t.small[0], "zero");
    assert_eq!(t.small[1], "one");
    assert_eq!(t.small[2], "two");
    assert_eq!(t.modulo[0], "other");
    assert_eq!(t.modulo[1], "other");
    assert_eq!(t.modulo[2], "other");
}

#[test]
fn invalid_tag_is_refused() {
    assert!(build_plural_table("not a locale!").is_err());
}

#[test]
fn tables_have_a_hundred_entries() {
    let t = build_plural_table("fr").ok().unwrap();
    assert_eq!(t.small.len(), 100);
    assert_eq!(t.modulo.len(), 100);
}

/// The lookup the generated runtime performs: `small[n]` below 100, else `modulo[n % 100]`.
fn looked_up(small: &[String], modulo: &[String], n: usize) -> String {
    if n < 100 {
        small[n].clone()
    } else {
        modulo[n % 100].clone()
    }
}

#[test]
fn polish_table_lookup_matches_cldr_above_one_hundred() {
    let t = build_plural_table("pl").ok().unwrap();
    assert_eq!(looked_up(&t.small, &t.modulo, 1022), "few");
    assert_eq!(looked_up(&t.small, &t.modulo, 1012), "many");
    assert_eq!(looked_up(&t.small, &t.modulo, 101), "many");
    assert_eq!(looked_up(&t.small, &t.modulo, 9994), "few");
}

#[test]
fn invalid_tag_reports_the_tag() {
    match build_plural_table("not a locale!") {
        Err(stelegen::error::Error::InvalidLocaleTag { tag, .. }) => assert_eq!(tag, "not a locale!"),
        _ => panic!("expected an invalid-tag error"),
    }
}
