//! Everything that makes generation, checking or interchange fail.

use vstd::prelude::*;
use crate::text::{concat, decimal, decimal_spec, owned, push_str};

verus! {

pub enum Error {
    /// The canonical locale is not in the catalog.
    CanonicalNotFound { locale: String },
    /// A locale tag that does not parse.
    InvalidLocaleTag { tag: String, detail: String },
    /// A valid locale for which no plural rules load.
    NoPluralData { tag: String, detail: String },
    /// The baked small + mod-100 table disagrees with CLDR at `n`.
    PluralModelMismatch { tag: String, n: u64, baked: String, cldr: String },
    /// A namespace that is not an object.
    ExpectedObject { path: String },
    /// A `$plural` that is not an object.
    PluralNotObject { key: String },
    /// A `$plural` without the required `other` form.
    PluralMissingOther { key: String },
    /// A `$plural` form under an unknown category.
    PluralUnknownCategory { key: String, category: String },
    /// A `$plural` form that is not a string.
    PluralFormNotString { key: String, category: String },
    /// A name used both for a value and for a namespace across locale files.
    ValueAndNamespace { segment: String },
    /// A key defined twice across locale files, or as both namespace and value.
    ConflictingKeys,
    /// An output case that is not one of camel, snake, pascal, preserve.
    UnknownCase { case: String },
    /// Two sibling keys that become the same identifier.
    KeyCollision { first: String, second: String, cased: String },
    /// Two parameters of one message that become the same identifier.
    ParamCollision { first: String, second: String, cased: String },
    /// A key that does not become a valid identifier.
    InvalidIdentifier { key: String, cased: String },
    /// A key that becomes a built-in JavaScript object member.
    ReservedIdentifier { key: String, cased: String },
    /// A namespace whose Swift type collides with a built-in or emitted type.
    SwiftReservedType { segment: String, ty: String },
    /// Two sibling namespaces that become the same Swift type.
    SwiftTypeCollision { first: String, second: String, ty: String },
    /// An interchange format that is not csv or xliff.
    UnknownFormat { format: String },
    /// The CSV reader or writer failed.
    Csv { detail: String },
    /// A target language without an emitter.
    UnknownTarget { lang: String },
    /// An export into the canonical locale.
    ExportCanonical { locale: String },
    /// An import whose format the file name does not tell.
    UnknownExtension { file: String },
    /// An import without a target locale.
    NoTargetLocale,
    /// An import over the canonical locale.
    ImportCanonical { locale: String },
    /// An import into a locale laid out as a folder.
    ImportFolder { locale: String },
}

/// The message shown to the user for `e`.
pub open spec fn message_spec(e: Error) -> Seq<char> {
    match e {
        Error::CanonicalNotFound { locale } => "canonical locale '"@ + locale@ + "' not found"@,
        Error::InvalidLocaleTag { tag, detail } => "invalid locale tag '"@ + tag@ + "': "@ + detail@,
        Error::NoPluralData { tag, detail } => "no CLDR plural data for '"@ + tag@ + "': "@ + detail@,
        Error::PluralModelMismatch { tag, n, baked, cldr } => "plural model mismatch for '"@ + tag@ + "' at n="@
            + decimal_spec(n as nat) + " (baked "@ + baked@ + ", ICU4X "@ + cldr@
            + ") \u{2014} this locale needs a richer model"@,
        Error::ExpectedObject { path } => "expected object at '"@ + path@ + "'"@,
        Error::PluralNotObject { key } => "'"@ + key@ + "' $plural must be an object of category \u{2192} string"@,
        Error::PluralMissingOther { key } => "'"@ + key@ + "' $plural is missing the required 'other' form"@,
        Error::PluralUnknownCategory { key, category } => "'"@ + key@ + "' $plural has unknown category '"@
            + category@ + "' (valid: zero one two few many other)"@,
        Error::PluralFormNotString { key, category } => "'"@ + key@ + "' $plural form '"@ + category@
            + "' must be a string"@,
        Error::ValueAndNamespace { segment } => "'"@ + segment@ + "' is used as both a value and a namespace"@,
        Error::ConflictingKeys => "conflicting copy keys across locale files (a key is defined twice, or as both a namespace and a value)"@,
        Error::UnknownCase { case } => "unknown case '"@ + case@ + "' (use: camel | snake | pascal | preserve)"@,
        Error::KeyCollision { first, second, cased } => "keys '"@ + first@ + "' and '"@ + second@
            + "' both become '"@ + cased@ + "' under the chosen output case"@,
        Error::ParamCollision { first, second, cased } => "params '"@ + first@ + "' and '"@ + second@
            + "' both become '"@ + cased@ + "'"@,
        Error::InvalidIdentifier { key, cased } => "key '"@ + key@ + "' becomes '"@ + cased@
            + "', which isn't a valid identifier"@,
        Error::ReservedIdentifier { key, cased } => "key '"@ + key@ + "' becomes '"@ + cased@
            + "', which collides with a built-in object member \u{2014} rename it"@,
        Error::SwiftReservedType { segment, ty } => "namespace '"@ + segment@ + "' becomes Swift type '"@ + ty@
            + "', which collides with a built-in or emitted type \u{2014} rename it"@,
        Error::SwiftTypeCollision { first, second, ty } => "namespaces '"@ + first@ + "' and '"@ + second@
            + "' both become Swift type '"@ + ty@ + "'"@,
        Error::UnknownFormat { format } => "unknown format '"@ + format@ + "' (use: csv | xliff)"@,
        Error::Csv { detail } => "CSV error: "@ + detail@,
        Error::UnknownTarget { lang } => "unknown target lang '"@ + lang@ + "'"@,
        Error::ExportCanonical { locale } => "export target '"@ + locale@
            + "' is the canonical locale \u{2014} choose a locale to translate into"@,
        Error::UnknownExtension { file } => "can't infer format from '"@ + file@ + "'; pass --format"@,
        Error::NoTargetLocale => "no target locale in the file; pass --locale"@,
        Error::ImportCanonical { locale } => "refusing to import over the canonical locale '"@ + locale@ + "'"@,
        Error::ImportFolder { locale } => "locale '"@ + locale@ + "' is a folder ("@ + locale@
            + "/) \u{2014} import currently writes a single "@ + locale@
            + ".json; not yet supported for folder locales"@,
    }
}

impl Error {
    /// The message shown to the user.
    pub fn message(&self) -> (r: String)
        ensures
            r@ == message_spec(*self),
    {
        match self {
            Error::CanonicalNotFound { locale } => quoted("canonical locale '", locale, "' not found"),
            Error::InvalidLocaleTag { tag, detail } => {
                let mut m = quoted("invalid locale tag '", tag, "': ");
                push_str(&mut m, detail.as_str());
                m
            },
            Error::NoPluralData { tag, detail } => {
                let mut m = quoted("no CLDR plural data for '", tag, "': ");
                push_str(&mut m, detail.as_str());
                m
            },
            Error::PluralModelMismatch { tag, n, baked, cldr } => {
                let mut m = quoted("plural model mismatch for '", tag, "' at n=");
                push_str(&mut m, decimal(*n).as_str());
                push_str(&mut m, " (baked ");
                push_str(&mut m, baked.as_str());
                push_str(&mut m, ", ICU4X ");
                push_str(&mut m, cldr.as_str());
                push_str(&mut m, ") \u{2014} this locale needs a richer model");
                m
            },
            Error::ExpectedObject { path } => quoted("expected object at '", path, "'"),
            Error::PluralNotObject { key } => quoted(
                "'",
                key,
                "' $plural must be an object of category \u{2192} string",
            ),
            Error::PluralMissingOther { key } => quoted("'", key, "' $plural is missing the required 'other' form"),
            Error::PluralUnknownCategory { key, category } => {
                let mut m = quoted("'", key, "' $plural has unknown category '");
                push_str(&mut m, category.as_str());
                push_str(&mut m, "' (valid: zero one two few many other)");
                m
            },
            Error::PluralFormNotString { key, category } => {
                let mut m = quoted("'", key, "' $plural form '");
                push_str(&mut m, category.as_str());
                push_str(&mut m, "' must be a string");
                m
            },
            Error::ValueAndNamespace { segment } => quoted("'", segment, "' is used as both a value and a namespace"),
            Error::ConflictingKeys => owned(
                "conflicting copy keys across locale files (a key is defined twice, or as both a namespace and a value)",
            ),
            Error::UnknownCase { case } => quoted(
                "unknown case '",
                case,
                "' (use: camel | snake | pascal | preserve)",
            ),
            Error::KeyCollision { first, second, cased } => {
                let mut m = quoted("keys '", first, "' and '");
                push_str(&mut m, second.as_str());
                push_str(&mut m, "' both become '");
                push_str(&mut m, cased.as_str());
                push_str(&mut m, "' under the chosen output case");
                m
            },
            Error::ParamCollision { first, second, cased } => {
                let mut m = quoted("params '", first, "' and '");
                push_str(&mut m, second.as_str());
                push_str(&mut m, "' both become '");
                push_str(&mut m, cased.as_str());
                push_str(&mut m, "'");
                m
            },
            Error::InvalidIdentifier { key, cased } => {
                let mut m = quoted("key '", key, "' becomes '");
                push_str(&mut m, cased.as_str());
                push_str(&mut m, "', which isn't a valid identifier");
                m
            },
            Error::ReservedIdentifier { key, cased } => {
                let mut m = quoted("key '", key, "' becomes '");
                push_str(&mut m, cased.as_str());
                push_str(&mut m, "', which collides with a built-in object member \u{2014} rename it");
                m
            },
            Error::SwiftReservedType { segment, ty } => {
                let mut m = quoted("namespace '", segment, "' becomes Swift type '");
                push_str(&mut m, ty.as_str());
                push_str(
                    &mut m,
                    "', which collides with a built-in or emitted type \u{2014} rename it",
                );
                m
            },
            Error::SwiftTypeCollision { first, second, ty } => {
                let mut m = quoted("namespaces '", first, "' and '");
                push_str(&mut m, second.as_str());
                push_str(&mut m, "' both become Swift type '");
                push_str(&mut m, ty.as_str());
                push_str(&mut m, "'");
                m
            },
            Error::UnknownFormat { format } => quoted("unknown format '", format, "' (use: csv | xliff)"),
            Error::Csv { detail } => concat("CSV error: ", detail.as_str()),
            Error::UnknownTarget { lang } => quoted("unknown target lang '", lang, "'"),
            Error::ExportCanonical { locale } => quoted(
                "export target '",
                locale,
                "' is the canonical locale \u{2014} choose a locale to translate into",
            ),
            Error::UnknownExtension { file } => quoted("can't infer format from '", file, "'; pass --format"),
            Error::NoTargetLocale => owned("no target locale in the file; pass --locale"),
            Error::ImportCanonical { locale } => quoted("refusing to import over the canonical locale '", locale, "'"),
            Error::ImportFolder { locale } => {
                let mut m = quoted("locale '", locale, "' is a folder (");
                push_str(&mut m, locale.as_str());
                push_str(&mut m, "/) \u{2014} import currently writes a single ");
                push_str(&mut m, locale.as_str());
                push_str(&mut m, ".json; not yet supported for folder locales");
                m
            },
        }
    }
}

fn quoted(before: &str, middle: &String, after: &str) -> (r: String)
    ensures
        r@ == before@ + middle@ + after@,
{
    let mut m = owned(before);
    push_str(&mut m, middle.as_str());
    push_str(&mut m, after);
    m
}

} // verus!
