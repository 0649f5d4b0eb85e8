//! Baked plural-category tables, resolved at generate time from CLDR data
//! (ICU4X) and emitted as pure lookups.
//!
//! CLDR cardinal rules for an integer `n` depend only on `n` itself (for a few
//! small exact comparisons) and on `n % 10` / `n % 100`, so the category of any
//! non-negative integer is captured by two 100-entry tables: `small[n]` for
//! `n < 100` and `modulo[n % 100]` for `n >= 100`. The table builder checks that
//! model against ICU4X for every `n < 10000` and refuses a locale that breaks it.

use vstd::prelude::*;
use crate::error::Error;
use crate::ir::PluralTable;
use crate::text::{owned, views};

verus! {

/// A CLDR plural category.
#[derive(PartialEq, Eq, Structural, Clone, Copy, Debug)]
pub enum PluralCategory {
    Zero,
    One,
    Two,
    Few,
    Many,
    Other,
}

/// The CLDR name of a category.
pub open spec fn cat_name_spec(c: PluralCategory) -> Seq<char> {
    match c {
        PluralCategory::Zero => "zero"@,
        PluralCategory::One => "one"@,
        PluralCategory::Two => "two"@,
        PluralCategory::Few => "few"@,
        PluralCategory::Many => "many"@,
        PluralCategory::Other => "other"@,
    }
}

/// The CLDR name of a category.
pub fn cat_name(c: PluralCategory) -> (r: &'static str)
    ensures
        r@ == cat_name_spec(c),
{
    match c {
        PluralCategory::Zero => "zero",
        PluralCategory::One => "one",
        PluralCategory::Two => "two",
        PluralCategory::Few => "few",
        PluralCategory::Many => "many",
        PluralCategory::Other => "other",
    }
}

/// Whether `tag` parses as a Unicode locale identifier (`icu_locale_core::Locale`).
pub uninterp spec fn cldr_tag_valid(tag: Seq<char>) -> bool;

/// Whether ICU4X's compiled data yields cardinal plural rules for `tag`.
pub uninterp spec fn cldr_data_available(tag: Seq<char>) -> bool;

/// The cardinal plural category that ICU4X's rules for `tag` give the integer `n`.
pub uninterp spec fn cldr_category(tag: Seq<char>, n: u64) -> PluralCategory;

/// Whether the rules for `tag` define a rule for the category `c` (`other` needs none).
pub uninterp spec fn cldr_has_rule(tag: Seq<char>, c: PluralCategory) -> bool;

/// The categories that `PluralRules::categories` lists for `tag`: those with a
/// rule, in the order zero, one, two, few, many, then always `other`.
pub open spec fn cldr_categories(tag: Seq<char>) -> Seq<PluralCategory> {
    seq![PluralCategory::Zero, PluralCategory::One, PluralCategory::Two, PluralCategory::Few, PluralCategory::Many].filter(
        |c: PluralCategory| cldr_has_rule(tag, c),
    ).push(PluralCategory::Other)
}

#[verifier::external_type_specification]
#[verifier::external_body]
pub struct ExLocale(icu_locale_core::Locale);

#[verifier::external_type_specification]
#[verifier::external_body]
pub struct ExLocaleParseError(icu_locale_core::ParseError);

#[verifier::external_type_specification]
#[verifier::external_body]
pub struct ExPluralRules(icu_plurals::PluralRules);

/// A locale identifier parsed from a tag; its view is that tag.
pub struct ParsedLocale {
    locale: icu_locale_core::Locale,
    tag: String,
}

impl View for ParsedLocale {
    type V = Seq<char>;

    closed spec fn view(&self) -> Seq<char> {
        self.tag@
    }
}

/// Cardinal plural rules of one locale, loaded from ICU4X; its view is the tag
/// it was loaded for.
pub struct CldrRules {
    rules: icu_plurals::PluralRules,
    tag: String,
}

impl View for CldrRules {
    type V = Seq<char>;

    closed spec fn view(&self) -> Seq<char> {
        self.tag@
    }
}

/// Calls `icu_locale_core::Locale::try_from_str`. Claims: it succeeds exactly
/// when `tag` is a valid locale identifier, and the parsed value keeps the tag.
#[verifier::external_body]
fn parse_locale(tag: &str) -> (r: Result<ParsedLocale, icu_locale_core::ParseError>)
    ensures
        r is Ok <==> cldr_tag_valid(tag@),
        r matches Ok(p) ==> p@ == tag@,
{
    match icu_locale_core::Locale::try_from_str(tag) {
        Ok(locale) => Ok(ParsedLocale { locale, tag: tag.to_string() }),
        Err(e) => Err(e),
    }
}

/// Renders an `icu_locale_core::ParseError` with its `Display` impl; nothing is
/// claimed of the text.
#[verifier::external_body]
fn parse_error_text(e: &icu_locale_core::ParseError) -> String {
    e.to_string()
}

/// Calls `icu_plurals::PluralRules::try_new_cardinal` (compiled data) with the
/// preferences of the parsed locale. Claims: it succeeds exactly when data is
/// available for the tag, and the loaded rules answer for that tag. Its error,
/// an `icu_provider::DataError`, is handed back as its `Display` text, of which
/// nothing is claimed.
#[verifier::external_body]
fn load_cardinal(p: &ParsedLocale) -> (r: Result<CldrRules, String>)
    ensures
        r is Ok <==> cldr_data_available(p@),
        r matches Ok(h) ==> h@ == p@,
{
    match icu_plurals::PluralRules::try_new_cardinal((&p.locale).into()) {
        Ok(rules) => Ok(CldrRules { rules, tag: p.tag.clone() }),
        Err(e) => Err(e.to_string()),
    }
}

/// Calls `PluralRules::category_for` on the integer `n`; the contract names its answer.
#[verifier::external_body]
fn category_for(h: &CldrRules, n: u64) -> (c: PluralCategory)
    ensures
        c == cldr_category(h@, n),
{
    match h.rules.category_for(n) {
        icu_plurals::PluralCategory::Zero => PluralCategory::Zero,
        icu_plurals::PluralCategory::One => PluralCategory::One,
        icu_plurals::PluralCategory::Two => PluralCategory::Two,
        icu_plurals::PluralCategory::Few => PluralCategory::Few,
        icu_plurals::PluralCategory::Many => PluralCategory::Many,
        icu_plurals::PluralCategory::Other => PluralCategory::Other,
    }
}

/// Calls `PluralRules::categories`, whose source lists the categories that have a
/// rule, in the order zero, one, two, few, many, and then `other`.
#[verifier::external_body]
fn rule_categories(h: &CldrRules) -> (r: Vec<PluralCategory>)
    ensures
        r@ == seq![PluralCategory::Zero, PluralCategory::One, PluralCategory::Two, PluralCategory::Few, PluralCategory::Many].filter(
            |c: PluralCategory| cldr_has_rule(h@, c),
        ).push(PluralCategory::Other),
{
    h.rules.categories().map(|c| match c {
        icu_plurals::PluralCategory::Zero => PluralCategory::Zero,
        icu_plurals::PluralCategory::One => PluralCategory::One,
        icu_plurals::PluralCategory::Two => PluralCategory::Two,
        icu_plurals::PluralCategory::Few => PluralCategory::Few,
        icu_plurals::PluralCategory::Many => PluralCategory::Many,
        icu_plurals::PluralCategory::Other => PluralCategory::Other,
    }).collect()
}

/// The table lookup the emitted runtime performs for a non-negative integer.
pub open spec fn table_category(small: Seq<Seq<char>>, modulo: Seq<Seq<char>>, n: nat) -> Seq<char> {
    if n < 100 {
        small[n as int]
    } else {
        modulo[(n % 100) as int]
    }
}

/// CLDR gives `n` the category that the mod-100 table gives it.
#[verifier::opaque]
pub open spec fn steady_at(tag: Seq<char>, n: u64) -> bool {
    cldr_category(tag, n) == cldr_category(tag, (100 + n % 100) as u64)
}

/// The small + mod-100 model agrees with CLDR for every `n < 10000`.
pub open spec fn periodic_model_holds(tag: Seq<char>) -> bool {
    forall|n: u64| 100 <= n < 10000 ==> #[trigger] steady_at(tag, n)
}

/// The table for `tag`, as `build_plural_table` returns it.
pub open spec fn plural_table_ok(tag: Seq<char>, t: PluralTable) -> bool {
    &&& t.small@.len() == 100
    &&& t.modulo@.len() == 100
    &&& forall|i: int| 0 <= i < 100 ==> #[trigger] t.small@[i]@ == cat_name_spec(cldr_category(tag, i as u64))
    &&& forall|i: int| 0 <= i < 100 ==> #[trigger] t.modulo@[i]@ == cat_name_spec(cldr_category(tag, (100 + i) as u64))
    &&& t.categories@.len() == cldr_categories(tag).len()
    &&& forall|i: int|
        0 <= i < t.categories@.len() ==> #[trigger] t.categories@[i]@ == cat_name_spec(cldr_categories(tag)[i])
}

/// The baked table of a locale gives every integer below 10000, by the lookup
/// the emitted runtime performs, the category CLDR gives it.
pub proof fn law_table_matches_cldr(tag: Seq<char>, t: PluralTable, n: nat)
    requires
        !plural_table_fails(tag),
        plural_table_ok(tag, t),
        n < 10000,
    ensures
        table_category(views(t.small@), views(t.modulo@), n) == cat_name_spec(cldr_category(tag, n as u64)),
{
    if n < 100 {
        assert(t.small@[n as int]@ == cat_name_spec(cldr_category(tag, (n as int) as u64)));
    } else {
        let r: int = n as int % 100;
        assert(steady_at(tag, n as u64));
        reveal(steady_at);
        assert(t.modulo@[r]@ == cat_name_spec(cldr_category(tag, (100 + r) as u64)));
        assert((n as u64) % 100 == r);
    }
}

/// The error `build_plural_table` reports for `tag`, if any: an invalid tag, no
/// data, or the first `n` at which the baked model disagrees with CLDR.
pub open spec fn plural_table_fails(tag: Seq<char>) -> bool {
    !cldr_tag_valid(tag) || !cldr_data_available(tag) || !periodic_model_holds(tag)
}

/// `e` is the error `build_plural_table` reports for `tag`: an invalid tag, no
/// data, or an `n` at which the baked model disagrees with CLDR.
pub open spec fn plural_error_for(e: Error, tag: Seq<char>) -> bool {
    match e {
        Error::InvalidLocaleTag { tag: t, .. } => t@ == tag && !cldr_tag_valid(tag),
        Error::NoPluralData { tag: t, .. } => t@ == tag && cldr_tag_valid(tag) && !cldr_data_available(tag),
        Error::PluralModelMismatch { tag: t, n, baked, cldr } => t@ == tag && cldr_tag_valid(tag)
            && cldr_data_available(tag) && 100 <= n < 10000 && cldr_category(tag, n) != cldr_category(
            tag,
            (100 + n % 100) as u64,
        ) && baked@ == cat_name_spec(cldr_category(tag, (100 + n % 100) as u64)) && cldr@ == cat_name_spec(
            cldr_category(tag, n),
        ),
        _ => false,
    }
}

/// Builds the baked plural-category table for `tag` from ICU4X's CLDR rules:
/// `small[n]` is the category of `n` for `n < 100`, `modulo[r]` that of `100 + r`,
/// and `categories` lists the categories the locale's rules name. Fails on a tag
/// that does not parse, on a locale without data, and when the table model
/// disagrees with ICU4X for some `n < 10000`.
pub fn build_plural_table(tag: &str) -> (r: Result<PluralTable, Error>)
    ensures
        r is Ok <==> !plural_table_fails(tag@),
        r matches Ok(t) ==> plural_table_ok(tag@, t),
        r matches Err(e) ==> plural_error_for(e, tag@),
{
    let parsed = match parse_locale(tag) {
        Ok(p) => p,
        Err(e) => {
            return Err(Error::InvalidLocaleTag { tag: owned(tag), detail: parse_error_text(&e) });
        },
    };
    let rules = match load_cardinal(&parsed) {
        Ok(h) => h,
        Err(detail) => {
            return Err(Error::NoPluralData { tag: owned(tag), detail });
        },
    };
    let mut small: Vec<String> = Vec::new();
    let mut small_cats: Vec<PluralCategory> = Vec::new();
    let mut n: u64 = 0;
    while n < 100
        invariant
            n <= 100,
            rules@ == tag@,
            small@.len() == n,
            small_cats@.len() == n,
            forall|i: int| 0 <= i < n ==> #[trigger] small_cats@[i] == cldr_category(tag@, i as u64),
            forall|i: int| 0 <= i < n ==> #[trigger] small@[i]@ == cat_name_spec(cldr_category(tag@, i as u64)),
        decreases 100 - n,
    {
        let c = category_for(&rules, n);
        small_cats.push(c);
        small.push(owned(cat_name(c)));
        n = n + 1;
    }
    let mut modulo: Vec<String> = Vec::new();
    let mut mod_cats: Vec<PluralCategory> = Vec::new();
    let mut r: u64 = 0;
    while r < 100
        invariant
            r <= 100,
            rules@ == tag@,
            modulo@.len() == r,
            mod_cats@.len() == r,
            forall|i: int| 0 <= i < r ==> #[trigger] mod_cats@[i] == cldr_category(tag@, (100 + i) as u64),
            forall|i: int|
                0 <= i < r ==> #[trigger] modulo@[i]@ == cat_name_spec(cldr_category(tag@, (100 + i) as u64)),
        decreases 100 - r,
    {
        let c = category_for(&rules, 100 + r);
        mod_cats.push(c);
        modulo.push(owned(cat_name(c)));
        r = r + 1;
    }
    // The small table is CLDR itself below 100; check the mod-100 steady state
    // against the oracle so that a rule breaking the model fails loudly.
    let mut m: u64 = 100;
    while m < 10000
        invariant
            100 <= m <= 10000,
            rules@ == tag@,
            cldr_tag_valid(tag@),
            cldr_data_available(tag@),
            mod_cats@.len() == 100,
            forall|i: int| 0 <= i < 100 ==> #[trigger] mod_cats@[i] == cldr_category(tag@, (100 + i) as u64),
            forall|k: u64| 100 <= k < m ==> #[trigger] steady_at(tag@, k),
        decreases 10000 - m,
    {
        let want = category_for(&rules, m);
        let idx = (m % 100) as usize;
        let got = mod_cats[idx];
        proof {
            assert(got == cldr_category(tag@, (100 + idx) as u64));
            reveal(steady_at);
        }
        if got != want {
            proof {
                assert((100 + idx) as u64 == (100 + m % 100) as u64);
                assert(!steady_at(tag@, m));
            }
            return Err(
                Error::PluralModelMismatch {
                    tag: owned(tag),
                    n: m,
                    baked: owned(cat_name(got)),
                    cldr: owned(cat_name(want)),
                },
            );
        }
        m = m + 1;
    }
    let cats = rule_categories(&rules);
    let mut categories: Vec<String> = Vec::new();
    let mut i: usize = 0;
    while i < cats.len()
        invariant
            i <= cats@.len(),
            cats@ == cldr_categories(tag@),
            categories@.len() == i,
            forall|j: int| 0 <= j < i ==> #[trigger] categories@[j]@ == cat_name_spec(cats@[j]),
        decreases cats@.len() - i,
    {
        categories.push(owned(cat_name(cats[i])));
        i = i + 1;
    }
    Ok(PluralTable { categories, small, modulo })
}

} // verus!
